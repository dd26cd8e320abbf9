//! The command line: its options, and how a line of arguments is read.
//!
//! An option has a short name, written after one hyphen, and a long name,
//! written after two. An option that takes a value reads it from the rest
//! of its own argument, after an optional `=`, or from the next argument.
//! Short options that take no value can be written together after one
//! hyphen. After an argument that is `--` nothing more is accepted.

use vstd::prelude::*;
use crate::settings::{clone_strings, strings, Settings, SettingsView};
use crate::text::{from_chars, same_chars, to_chars};

verus! {

/// What an option does each time it occurs.
#[derive(Clone, Copy, Debug, PartialEq, Eq, Structural)]
pub enum ArgAction {
    /// Takes a value and adds it to those it has.
    Append,
    /// Takes a value; the last one counts.
    Replace,
    /// Takes no value; it is on once it has occurred.
    SetTrue,
    /// Takes no value; its occurrences are counted.
    Count,
}

/// One option of the command line.
#[derive(Clone, Debug)]
pub struct Arg {
    pub id: String,
    pub short: char,
    pub long: String,
    pub action: ArgAction,
}

/// The mathematical value of an `Arg`.
pub struct ArgView {
    pub id: Seq<char>,
    pub short: char,
    pub long: Seq<char>,
    pub action: ArgAction,
}

impl View for Arg {
    type V = ArgView;

    open spec fn view(&self) -> ArgView {
        ArgView { id: self.id@, short: self.short, long: self.long@, action: self.action }
    }
}

/// The options of a command line.
#[derive(Clone, Debug)]
pub struct App {
    pub args: Vec<Arg>,
}

impl View for App {
    type V = Seq<ArgView>;

    open spec fn view(&self) -> Seq<ArgView> {
        self.args@.map_values(|a: Arg| a@)
    }
}

/// Why a line of arguments was not taken.
#[derive(Clone, Debug, PartialEq, Eq)]
pub enum ParseError {
    /// An argument that is no option of the command line.
    UnexpectedArgument(String),
    /// An option that takes a value and was given none.
    MissingValue(String),
    /// An option that takes no value and was given one.
    UnexpectedValue(String),
    /// The help was asked for.
    Help,
    /// The version was asked for.
    Version,
}

/// The mathematical value of a `ParseError`.
pub enum ParseErrorView {
    UnexpectedArgument(Seq<char>),
    MissingValue(Seq<char>),
    UnexpectedValue(Seq<char>),
    Help,
    Version,
}

impl View for ParseError {
    type V = ParseErrorView;

    open spec fn view(&self) -> ParseErrorView {
        match self {
            ParseError::UnexpectedArgument(s) => ParseErrorView::UnexpectedArgument(s@),
            ParseError::MissingValue(s) => ParseErrorView::MissingValue(s@),
            ParseError::UnexpectedValue(s) => ParseErrorView::UnexpectedValue(s@),
            ParseError::Help => ParseErrorView::Help,
            ParseError::Version => ParseErrorView::Version,
        }
    }
}

/// The values found for each option, in the order of the options; an
/// occurrence of an option that takes no value counts as an empty value.
pub type Found = Seq<Seq<Seq<char>>>;

/// The first place at which `x` stands in `s`.
pub open spec fn first_at<T>(s: Seq<T>, x: T) -> Option<int>
    decreases s.len(),
{
    if s.len() == 0 {
        None
    } else if s[0] == x {
        Some(0)
    } else {
        match first_at(s.skip(1), x) {
            Some(k) => Some(k + 1),
            None => None,
        }
    }
}

/// The first place of `x` is the place before which `x` does not stand.
pub proof fn lemma_first_at<T>(s: Seq<T>, x: T, i: int)
    requires
        0 <= i <= s.len(),
        forall|j: int| 0 <= j < i ==> s[j] != x,
        i < s.len() ==> s[i] == x,
    ensures
        first_at(s, x) == if i < s.len() {
            Some(i)
        } else {
            None
        },
    decreases s.len(),
{
    if s.len() > 0 && i > 0 {
        assert(s[0] != x);
        assert forall|j: int| 0 <= j < i - 1 implies s.skip(1)[j] != x by {
            assert(s.skip(1)[j] == s[j + 1]);
        }
        lemma_first_at(s.skip(1), x, i - 1);
    }
}

/// The short names of the options.
pub open spec fn shorts(table: Seq<ArgView>) -> Seq<char> {
    table.map_values(|a: ArgView| a.short)
}

/// The long names of the options.
pub open spec fn longs(table: Seq<ArgView>) -> Seq<Seq<char>> {
    table.map_values(|a: ArgView| a.long)
}

/// The identifiers of the options.
pub open spec fn ids(table: Seq<ArgView>) -> Seq<Seq<char>> {
    table.map_values(|a: ArgView| a.id)
}

/// Whether an option reads a value.
pub open spec fn takes_value(action: ArgAction) -> bool {
    action == ArgAction::Append || action == ArgAction::Replace
}

/// Whether an argument is written like an option: a hyphen and more.
pub open spec fn option_like(tok: Seq<char>) -> bool {
    tok.len() > 1 && tok[0] == '-'
}

/// Whether an argument is the two hyphens that end the options.
pub open spec fn is_terminator(tok: Seq<char>) -> bool {
    tok.len() == 2 && tok[0] == '-' && tok[1] == '-'
}

/// Whether an argument names an option by its long name.
pub open spec fn is_long(tok: Seq<char>) -> bool {
    tok.len() > 2 && tok[0] == '-' && tok[1] == '-'
}

/// The name in a long option: what stands before the first `=`.
pub open spec fn long_name(body: Seq<char>) -> Seq<char> {
    match first_at(body, '=') {
        Some(k) => body.subrange(0, k),
        None => body,
    }
}

/// The value written into a long option: what stands after the first `=`.
pub open spec fn long_value(body: Seq<char>) -> Option<Seq<char>> {
    match first_at(body, '=') {
        Some(k) => Some(body.skip(k + 1)),
        None => None,
    }
}

/// The value written behind a short option in its own argument.
pub open spec fn attached(rest: Seq<char>) -> Seq<char> {
    if rest.len() > 0 && rest[0] == '=' {
        rest.skip(1)
    } else {
        rest
    }
}

/// `m` with one more value for the option at place `k`.
pub open spec fn record(m: Found, k: int, value: Seq<char>) -> Found {
    if 0 <= k < m.len() {
        m.update(k, m[k].push(value))
    } else {
        m
    }
}

/// No value for any of `n` options.
pub open spec fn nothing_found(n: nat) -> Found {
    Seq::new(n, |k: int| Seq::<Seq<char>>::empty())
}

/// Reads the arguments from place `i` on.
pub open spec fn parse_from(table: Seq<ArgView>, argv: Seq<Seq<char>>, i: int, m: Found) -> Result<Found, ParseErrorView>
    decreases argv.len() - i, 1int, 0int,
{
    if i < 0 || i >= argv.len() {
        Ok(m)
    } else {
        let tok = argv[i];
        if is_terminator(tok) {
            if i + 1 < argv.len() {
                Err(ParseErrorView::UnexpectedArgument(argv[i + 1]))
            } else {
                Ok(m)
            }
        } else if is_long(tok) {
            let name = long_name(tok.skip(2));
            let value = long_value(tok.skip(2));
            if name == "help"@ {
                Err(ParseErrorView::Help)
            } else if name == "version"@ {
                Err(ParseErrorView::Version)
            } else {
                match first_at(longs(table), name) {
                    None => Err(ParseErrorView::UnexpectedArgument(tok)),
                    Some(k) => if takes_value(table[k].action) {
                        match value {
                            Some(v) => parse_from(table, argv, i + 1, record(m, k, v)),
                            None => if i + 1 < argv.len() && !option_like(argv[i + 1]) {
                                parse_from(table, argv, i + 2, record(m, k, argv[i + 1]))
                            } else {
                                Err(ParseErrorView::MissingValue(tok))
                            },
                        }
                    } else {
                        match value {
                            Some(_) => Err(ParseErrorView::UnexpectedValue(tok)),
                            None => parse_from(table, argv, i + 1, record(m, k, Seq::empty())),
                        }
                    },
                }
            }
        } else if option_like(tok) {
            parse_cluster(table, argv, i, 1, m)
        } else {
            Err(ParseErrorView::UnexpectedArgument(tok))
        }
    }
}

/// Reads the short options of the argument at place `i` from its
/// character `pos` on, then the arguments after it.
pub open spec fn parse_cluster(table: Seq<ArgView>, argv: Seq<Seq<char>>, i: int, pos: int, m: Found) -> Result<
    Found,
    ParseErrorView,
>
    decreases argv.len() - i, 0int, argv[i].len() - pos,
{
    if i < 0 || i >= argv.len() {
        Ok(m)
    } else if pos < 0 || pos >= argv[i].len() {
        parse_from(table, argv, i + 1, m)
    } else {
        let tok = argv[i];
        let c = tok[pos];
        if c == 'h' {
            Err(ParseErrorView::Help)
        } else if c == 'V' {
            Err(ParseErrorView::Version)
        } else {
            match first_at(shorts(table), c) {
                None => Err(ParseErrorView::UnexpectedArgument(tok)),
                Some(k) => if takes_value(table[k].action) {
                    let rest = tok.skip(pos + 1);
                    if rest.len() > 0 {
                        parse_from(table, argv, i + 1, record(m, k, attached(rest)))
                    } else if i + 1 < argv.len() && !option_like(argv[i + 1]) {
                        parse_from(table, argv, i + 2, record(m, k, argv[i + 1]))
                    } else {
                        Err(ParseErrorView::MissingValue(tok))
                    }
                } else {
                    parse_cluster(table, argv, i, pos + 1, record(m, k, Seq::empty()))
                },
            }
        }
    }
}

/// What a line of arguments says: the first argument names the program,
/// the others are read in order.
pub open spec fn parsed(table: Seq<ArgView>, argv: Seq<Seq<char>>) -> Result<Found, ParseErrorView> {
    parse_from(table, argv, 1, nothing_found(table.len()))
}

/// The views of the arguments of `v`.
pub open spec fn arg_views(v: Seq<&str>) -> Seq<Seq<char>> {
    v.map_values(|s: &str| s@)
}

/// The views of the values found for each option.
pub open spec fn found_views(v: Seq<Vec<String>>) -> Found {
    v.map_values(|values: Vec<String>| strings(values@))
}

/// The options that occurred in a line of arguments, with their values.
#[derive(Clone, Debug)]
pub struct ArgMatches {
    pub ids: Vec<String>,
    pub found: Vec<Vec<String>>,
}

/// The mathematical value of an `ArgMatches`.
pub struct ArgMatchesView {
    pub ids: Seq<Seq<char>>,
    pub found: Found,
}

impl View for ArgMatches {
    type V = ArgMatchesView;

    open spec fn view(&self) -> ArgMatchesView {
        ArgMatchesView { ids: strings(self.ids@), found: found_views(self.found@) }
    }
}

/// The characters of `v` from `from` up to `to`.
fn slice_chars(v: &Vec<char>, from: usize, to: usize) -> (res: Vec<char>)
    requires
        from <= to <= v.len(),
    ensures
        res@ == v@.subrange(from as int, to as int),
{
    let mut res: Vec<char> = Vec::new();
    let mut i: usize = from;
    while i < to
        invariant
            from <= i <= to,
            to <= v.len(),
            res@ == v@.subrange(from as int, i as int),
        decreases to - i,
    {
        res.push(v[i]);
        i = i + 1;
        assert(res@ =~= v@.subrange(from as int, i as int));
    }
    res
}

/// The first place of a character in `v`.
fn find_char(v: &Vec<char>, c: char) -> (res: Option<usize>)
    ensures
        res is Some <==> first_at(v@, c) is Some,
        res matches Some(k) ==> first_at(v@, c) == Some(k as int) && k < v.len(),
{
    let mut i: usize = 0;
    while i < v.len()
        invariant
            i <= v.len(),
            forall|j: int| 0 <= j < i ==> v@[j] != c,
        decreases v.len() - i,
    {
        if v[i] == c {
            proof {
                lemma_first_at(v@, c, i as int);
            }
            return Some(i);
        }
        i = i + 1;
    }
    proof {
        lemma_first_at(v@, c, v.len() as int);
    }
    None
}

/// Whether an argument is written like an option.
fn is_option_like(arg: &str) -> (res: bool)
    ensures
        res == option_like(arg@),
{
    arg.unicode_len() > 1 && arg.get_char(0) == '-'
}

/// Adds a value to those of the option at place `k`.
fn record_value(found: &mut Vec<Vec<String>>, k: usize, value: String)
    requires
        k < old(found).len(),
    ensures
        final(found).len() == old(found).len(),
        found_views(final(found)@) == record(found_views(old(found)@), k as int, value@),
{
    let ghost before = found_views(found@);
    let mut slot = found.remove(k);
    let ghost had = strings(slot@);
    slot.push(value);
    assert(strings(slot@) =~= had.push(value@));
    found.insert(k, slot);
    assert(found_views(found@) =~= before.update(k as int, before[k as int].push(value@)));
}

impl App {
    /// The place of the option with the short name `c`.
    fn find_short(&self, c: char) -> (res: Option<usize>)
        ensures
            res is Some <==> first_at(shorts(self@), c) is Some,
            res matches Some(k) ==> first_at(shorts(self@), c) == Some(k as int) && k < self.args.len(),
    {
        let mut i: usize = 0;
        while i < self.args.len()
            invariant
                i <= self.args.len(),
                forall|j: int| 0 <= j < i ==> shorts(self@)[j] != c,
            decreases self.args.len() - i,
        {
            if self.args[i].short == c {
                proof {
                    lemma_first_at(shorts(self@), c, i as int);
                }
                return Some(i);
            }
            i = i + 1;
        }
        proof {
            lemma_first_at(shorts(self@), c, self.args.len() as int);
        }
        None
    }

    /// The place of the option with the long name `name`.
    fn find_long(&self, name: &Vec<char>) -> (res: Option<usize>)
        ensures
            res is Some <==> first_at(longs(self@), name@) is Some,
            res matches Some(k) ==> first_at(longs(self@), name@) == Some(k as int) && k < self.args.len(),
    {
        let mut i: usize = 0;
        while i < self.args.len()
            invariant
                i <= self.args.len(),
                forall|j: int| 0 <= j < i ==> longs(self@)[j] != name@,
            decreases self.args.len() - i,
        {
            let long = to_chars(self.args[i].long.as_str());
            if same_chars(&long, name) {
                proof {
                    lemma_first_at(longs(self@), name@, i as int);
                }
                return Some(i);
            }
            i = i + 1;
        }
        proof {
            lemma_first_at(longs(self@), name@, self.args.len() as int);
        }
        None
    }

    /// Reads the long option at place `i`. Hands back the place of the
    /// argument that is read next.
    fn read_long(&self, argv: &Vec<&str>, i: usize, tok: &Vec<char>, found: &mut Vec<Vec<String>>) -> (res: Result<
        usize,
        ParseError,
    >)
        requires
            i < argv.len(),
            tok@ == argv@[i as int]@,
            is_long(tok@),
            old(found).len() == self.args.len(),
        ensures
            final(found).len() == old(found).len(),
            match res {
                Ok(next) => i < next <= argv.len() && parse_from(self@, arg_views(argv@), i as int, found_views(old(found)@))
                    == parse_from(self@, arg_views(argv@), next as int, found_views(final(found)@)),
                Err(error) => parse_from(self@, arg_views(argv@), i as int, found_views(old(found)@)) == Err::<
                    Found,
                    ParseErrorView,
                >(error@),
            },
    {
        let ghost av = arg_views(argv@);
        assert(av[i as int] == tok@);
        let body = slice_chars(tok, 2, tok.len());
        assert(body@ =~= tok@.skip(2));
        let eq = find_char(&body, '=');
        let name = match eq {
            Some(k) => slice_chars(&body, 0, k),
            None => slice_chars(&body, 0, body.len()),
        };
        assert(name@ =~= long_name(body@));
        let help = to_chars("help");
        let version = to_chars("version");
        if same_chars(&name, &help) {
            return Err(ParseError::Help);
        }
        if same_chars(&name, &version) {
            return Err(ParseError::Version);
        }
        match self.find_long(&name) {
            None => Err(ParseError::UnexpectedArgument(from_chars(tok))),
            Some(k) => {
                assert(self@[k as int].action == self.args@[k as int].action);
                let action = self.args[k].action;
                if action == ArgAction::Append || action == ArgAction::Replace {
                    match eq {
                        Some(at) => {
                            let value = slice_chars(&body, at + 1, body.len());
                            assert(value@ =~= body@.skip(at + 1));
                            record_value(found, k, from_chars(&value));
                            Ok(i + 1)
                        },
                        None => {
                            if i + 1 < argv.len() && !is_option_like(argv[i + 1]) {
                                assert(av[i + 1] == argv@[i + 1]@);
                                record_value(found, k, argv[i + 1].to_owned());
                                Ok(i + 2)
                            } else {
                                if i + 1 < argv.len() {
                                    assert(av[i + 1] == argv@[i + 1]@);
                                }
                                Err(ParseError::MissingValue(from_chars(tok)))
                            }
                        },
                    }
                } else {
                    match eq {
                        Some(_) => Err(ParseError::UnexpectedValue(from_chars(tok))),
                        None => {
                            record_value(found, k, String::new());
                            Ok(i + 1)
                        },
                    }
                }
            },
        }
    }

    /// Reads the short options of the argument at place `i`. Hands back the
    /// place of the argument that is read next.
    fn read_cluster(&self, argv: &Vec<&str>, i: usize, tok: &Vec<char>, found: &mut Vec<Vec<String>>) -> (res: Result<
        usize,
        ParseError,
    >)
        requires
            i < argv.len(),
            tok@ == argv@[i as int]@,
            old(found).len() == self.args.len(),
        ensures
            final(found).len() == old(found).len(),
            match res {
                Ok(next) => i < next <= argv.len() && parse_cluster(
                    self@,
                    arg_views(argv@),
                    i as int,
                    1,
                    found_views(old(found)@),
                ) == parse_from(self@, arg_views(argv@), next as int, found_views(final(found)@)),
                Err(error) => parse_cluster(self@, arg_views(argv@), i as int, 1, found_views(old(found)@)) == Err::<
                    Found,
                    ParseErrorView,
                >(error@),
            },
    {
        let ghost av = arg_views(argv@);
        let ghost start = found_views(found@);
        assert(av[i as int] == tok@);
        let mut pos: usize = 1;
        while pos < tok.len()
            invariant
                1 <= pos,
                i < argv.len(),
                av == arg_views(argv@),
                av.len() == argv.len(),
                av[i as int] == tok@,
                found.len() == self.args.len(),
                found.len() == old(found).len(),
                start == found_views(old(found)@),
                parse_cluster(self@, av, i as int, 1, start) == parse_cluster(self@, av, i as int, pos as int, found_views(found@)),
            decreases tok.len() - pos,
        {
            let c = tok[pos];
            assert(av[i as int][pos as int] == c);
            if c == 'h' {
                return Err(ParseError::Help);
            }
            if c == 'V' {
                return Err(ParseError::Version);
            }
            match self.find_short(c) {
                None => {
                    return Err(ParseError::UnexpectedArgument(from_chars(tok)));
                },
                Some(k) => {
                    assert(self@[k as int].action == self.args@[k as int].action);
                    let action = self.args[k].action;
                    if action == ArgAction::Append || action == ArgAction::Replace {
                        let rest = slice_chars(tok, pos + 1, tok.len());
                        assert(rest@ =~= tok@.skip(pos + 1));
                        if rest.len() > 0 {
                            let value = if rest[0] == '=' {
                                let cut = slice_chars(&rest, 1, rest.len());
                                assert(cut@ =~= rest@.skip(1));
                                cut
                            } else {
                                rest
                            };
                            record_value(found, k, from_chars(&value));
                            return Ok(i + 1);
                        } else if i + 1 < argv.len() && !is_option_like(argv[i + 1]) {
                            assert(av[i + 1] == argv@[i + 1]@);
                            record_value(found, k, argv[i + 1].to_owned());
                            return Ok(i + 2);
                        } else {
                            if i + 1 < argv.len() {
                                assert(av[i + 1] == argv@[i + 1]@);
                            }
                            return Err(ParseError::MissingValue(from_chars(tok)));
                        }
                    } else {
                        record_value(found, k, String::new());
                        pos = pos + 1;
                    }
                },
            }
        }
        Ok(i + 1)
    }

    /// Reads a line of arguments. The first argument names the program.
    pub fn get_matches_from(&self, argv: Vec<&str>) -> (res: Result<ArgMatches, ParseError>)
        ensures
            match parsed(self@, arg_views(argv@)) {
                Ok(found) => res matches Ok(matches) && matches@.found == found && matches@.ids == ids(self@),
                Err(error) => res matches Err(given) && given@ == error,
            },
    {
        let ghost av = arg_views(argv@);
        let mut found: Vec<Vec<String>> = Vec::new();
        let mut names: Vec<String> = Vec::new();
        let mut k: usize = 0;
        while k < self.args.len()
            invariant
                k <= self.args.len(),
                found.len() == k,
                names.len() == k,
                found_views(found@) == nothing_found(k as nat),
                strings(names@) == ids(self@).subrange(0, k as int),
            decreases self.args.len() - k,
        {
            let none: Vec<String> = Vec::new();
            assert(strings(none@) =~= Seq::<Seq<char>>::empty());
            let ghost before = found_views(found@);
            found.push(none);
            assert(found_views(found@) =~= before.push(Seq::<Seq<char>>::empty()));
            names.push(self.args[k].id.clone());
            k = k + 1;
            assert(found_views(found@) =~= nothing_found(k as nat));
            assert(strings(names@) =~= ids(self@).subrange(0, k as int));
        }
        assert(ids(self@).subrange(0, self.args.len() as int) =~= ids(self@));
        let mut i: usize = 1;
        while i < argv.len()
            invariant
                1 <= i,
                av == arg_views(argv@),
                av.len() == argv.len(),
                found.len() == self.args.len(),
                strings(names@) == ids(self@),
                parsed(self@, av) == parse_from(self@, av, i as int, found_views(found@)),
            decreases argv.len() - i,
        {
            let tok = to_chars(argv[i]);
            assert(av[i as int] == tok@);
            if tok.len() == 2 && tok[0] == '-' && tok[1] == '-' {
                if i + 1 < argv.len() {
                    assert(av[i + 1] == argv@[i + 1]@);
                    return Err(ParseError::UnexpectedArgument(argv[i + 1].to_owned()));
                }
                return Ok(ArgMatches { ids: names, found });
            } else if tok.len() > 2 && tok[0] == '-' && tok[1] == '-' {
                match self.read_long(&argv, i, &tok, &mut found) {
                    Ok(next) => {
                        i = next;
                    },
                    Err(error) => {
                        return Err(error);
                    },
                }
            } else if tok.len() > 1 && tok[0] == '-' {
                match self.read_cluster(&argv, i, &tok, &mut found) {
                    Ok(next) => {
                        i = next;
                    },
                    Err(error) => {
                        return Err(error);
                    },
                }
            } else {
                return Err(ParseError::UnexpectedArgument(from_chars(&tok)));
            }
        }
        Ok(ArgMatches { ids: names, found })
    }
}


/// The values that were found for the option `id`, in the order in which they were given.
pub open spec fn values_of(m: ArgMatchesView, id: Seq<char>) -> Seq<Seq<char>> {
    match first_at(m.ids, id) {
        Some(k) => if k < m.found.len() {
            m.found[k]
        } else {
            Seq::empty()
        },
        None => Seq::empty(),
    }
}

/// The value that was given last for the option `id`, or the empty text.
pub open spec fn last_value(m: ArgMatchesView, id: Seq<char>) -> Seq<char> {
    let values = values_of(m, id);
    if values.len() > 0 {
        values.last()
    } else {
        Seq::empty()
    }
}

/// How often the option `id` occurred, as far as a byte counts.
pub open spec fn count_of(m: ArgMatchesView, id: Seq<char>) -> u8 {
    let n = values_of(m, id).len();
    if n > 255 {
        255
    } else {
        n as u8
    }
}

/// The place of an identifier among the identifiers.
fn find_id(names: &Vec<String>, id: &str) -> (res: Option<usize>)
    ensures
        res is Some <==> first_at(strings(names@), id@) is Some,
        res matches Some(k) ==> first_at(strings(names@), id@) == Some(k as int) && k < names.len(),
{
    let wanted = to_chars(id);
    let mut i: usize = 0;
    while i < names.len()
        invariant
            i <= names.len(),
            wanted@ == id@,
            forall|j: int| 0 <= j < i ==> strings(names@)[j] != id@,
        decreases names.len() - i,
    {
        let here = to_chars(names[i].as_str());
        if same_chars(&here, &wanted) {
            proof {
                lemma_first_at(strings(names@), id@, i as int);
            }
            return Some(i);
        }
        i = i + 1;
    }
    proof {
        lemma_first_at(strings(names@), id@, names.len() as int);
    }
    None
}

/// The values that were given for an option.
pub fn to_vec_string(matches: &ArgMatches, id: &str) -> (res: Vec<String>)
    ensures
        strings(res@) == values_of(matches@, id@),
{
    match find_id(&matches.ids, id) {
        Some(k) => {
            if k < matches.found.len() {
                clone_strings(&matches.found[k])
            } else {
                let res: Vec<String> = Vec::new();
                assert(strings(res@) =~= Seq::<Seq<char>>::empty());
                res
            }
        },
        None => {
            let res: Vec<String> = Vec::new();
            assert(strings(res@) =~= Seq::<Seq<char>>::empty());
            res
        },
    }
}

/// The value that was given last for an option, or the empty text.
pub fn to_string_unwrap(matches: &ArgMatches, id: &str) -> (res: String)
    ensures
        res@ == last_value(matches@, id@),
{
    let values = to_vec_string(matches, id);
    if values.len() > 0 {
        values[values.len() - 1].clone()
    } else {
        String::new()
    }
}

/// How often an option occurred, as far as a byte counts.
pub fn to_count(matches: &ArgMatches, id: &str) -> (res: u8)
    ensures
        res == count_of(matches@, id@),
{
    let values = to_vec_string(matches, id);
    if values.len() > 255 {
        255
    } else {
        values.len() as u8
    }
}

/// The options of the program.
pub open spec fn paro_args() -> Seq<ArgView> {
    seq![
        ArgView { id: "tags"@, short: 't', long: "tag"@, action: ArgAction::Append },
        ArgView { id: "excludes"@, short: 'x', long: "exclude"@, action: ArgAction::Append },
        ArgView { id: "includes"@, short: 'i', long: "include"@, action: ArgAction::Append },
        ArgView { id: "directories"@, short: 'a', long: "add-dir"@, action: ArgAction::Append },
        ArgView { id: "destination"@, short: 'n', long: "destination"@, action: ArgAction::Replace },
        ArgView { id: "hostname"@, short: 'B', long: "hostname"@, action: ArgAction::Replace },
        ArgView { id: "force"@, short: 'f', long: "force"@, action: ArgAction::SetTrue },
        ArgView { id: "down"@, short: 'd', long: "down"@, action: ArgAction::SetTrue },
        ArgView { id: "dry-run"@, short: 'D', long: "dry-run"@, action: ArgAction::SetTrue },
        ArgView { id: "verbose"@, short: 'v', long: "verbose"@, action: ArgAction::Count },
    ]
}

/// The configuration that a line of arguments asks for.
pub open spec fn settings_of(m: ArgMatchesView) -> SettingsView {
    SettingsView {
        tags: values_of(m, "tags"@),
        excludes: values_of(m, "excludes"@),
        includes: values_of(m, "includes"@),
        directories: values_of(m, "directories"@),
        destination: last_value(m, "destination"@),
        hostname: last_value(m, "hostname"@),
        force: count_of(m, "force"@) > 0,
        down: count_of(m, "down"@) > 0,
        dry_run: count_of(m, "dry-run"@) > 0,
        verbose: count_of(m, "verbose"@),
    }
}

/// One option of the command line.
fn option(id: &str, short: char, long: &str, action: ArgAction) -> (res: Arg)
    ensures
        res@ == (ArgView { id: id@, short, long: long@, action }),
{
    Arg { id: id.to_owned(), short, long: long.to_owned(), action }
}

/// The reader of the program's command line.
#[derive(Clone, Debug)]
pub struct ClapParser {
    pub clap: App,
}

impl ClapParser {
    /// The reader with the options of the program.
    pub fn new() -> (res: ClapParser)
        ensures
            res.clap@ == paro_args(),
    {
        let args = vec![
            option("tags", 't', "tag", ArgAction::Append),
            option("excludes", 'x', "exclude", ArgAction::Append),
            option("includes", 'i', "include", ArgAction::Append),
            option("directories", 'a', "add-dir", ArgAction::Append),
            option("destination", 'n', "destination", ArgAction::Replace),
            option("hostname", 'B', "hostname", ArgAction::Replace),
            option("force", 'f', "force", ArgAction::SetTrue),
            option("down", 'd', "down", ArgAction::SetTrue),
            option("dry-run", 'D', "dry-run", ArgAction::SetTrue),
            option("verbose", 'v', "verbose", ArgAction::Count),
        ];
        let res = ClapParser { clap: App { args } };
        assert(res.clap@ =~= paro_args());
        res
    }

    /// Reads a line of arguments into a configuration. The first argument
    /// names the program.
    pub fn into_settings(self, manual_args: Vec<&str>) -> (res: Result<Settings, ParseError>)
        ensures
            match parsed(self.clap@, arg_views(manual_args@)) {
                Ok(found) => res matches Ok(settings) && settings@ == settings_of(
                    ArgMatchesView { ids: ids(self.clap@), found },
                ),
                Err(error) => res matches Err(given) && given@ == error,
            },
    {
        match self.clap.get_matches_from(manual_args) {
            Err(error) => Err(error),
            Ok(matches) => Ok(
                Settings {
                    tags: to_vec_string(&matches, "tags"),
                    excludes: to_vec_string(&matches, "excludes"),
                    includes: to_vec_string(&matches, "includes"),
                    directories: to_vec_string(&matches, "directories"),
                    destination: to_string_unwrap(&matches, "destination"),
                    hostname: to_string_unwrap(&matches, "hostname"),
                    force: to_count(&matches, "force") > 0,
                    down: to_count(&matches, "down") > 0,
                    dry_run: to_count(&matches, "dry-run") > 0,
                    verbose: to_count(&matches, "verbose"),
                },
            ),
        }
    }
}


} // verus!
