//! Line search: which lines of a text hold a query, with the lines around them.

use crate::text::{
    chars_to_string, decimal_string, find_char, index_of_char, lemma_index_of_char_skip,
    parse_decimal, parse_usize, str_eq, str_to_chars, strings_view, strs_view, to_lowercase,
    unicode_lowercase, usize_to_string,
};
use vstd::prelude::*;
use vstd::string::StringExecFns;

verus! {

#[derive(Debug)]
pub struct Config<'a> {
    pub query: &'a str,
    pub file_path: &'a str,
    pub ignore_case: bool,
    pub line_numbers: bool,
    pub context: (usize, usize),
}

/// A line without the carriage return that ends it, if one does.
pub open spec fn strip_cr(line: Seq<char>) -> Seq<char> {
    if line.len() > 0 && line.last() == '\r' {
        line.drop_last()
    } else {
        line
    }
}

/// The lines of a text as `str::lines` yields them: the text is cut behind
/// each line feed, a line loses its line feed and a carriage return before
/// it, and what follows the last line feed is a line unless it is empty.
pub open spec fn text_lines(text: Seq<char>) -> Seq<Seq<char>>
    decreases text.len(),
{
    if text.len() == 0 {
        Seq::empty()
    } else {
        let i = index_of_char(text, '\n', 0);
        if 0 <= i < text.len() {
            seq![strip_cr(text.take(i))] + text_lines(text.skip(i + 1))
        } else {
            seq![text]
        }
    }
}

/// Whether `needle` occurs in `hay` at the place `at`.
pub open spec fn occurs_at(hay: Seq<char>, needle: Seq<char>, at: int) -> bool {
    0 <= at && at + needle.len() <= hay.len() && hay.subrange(at, at + needle.len()) == needle
}

/// Whether `needle` occurs in `hay`.
pub open spec fn contains(hay: Seq<char>, needle: Seq<char>) -> bool {
    exists|at: int| occurs_at(hay, needle, at)
}

/// Whether a line matches a query under a configuration.
pub open spec fn line_matches(query: Seq<char>, line: Seq<char>, ignore_case: bool) -> bool {
    if ignore_case {
        contains(unicode_lowercase(line), unicode_lowercase(query))
    } else {
        contains(line, query)
    }
}

/// A line as it is printed: with its number, counted from one, where line
/// numbers are asked for.
pub open spec fn printed_line(line: Seq<char>, index: int, line_numbers: bool) -> Seq<char> {
    if line_numbers {
        decimal_string((index + 1) as nat) + seq![':', ' '] + line
    } else {
        line
    }
}

/// Whether the line at `index` is shown: a line that is hit lies at most
/// `context.0` lines behind it or `context.1` lines before it.
pub open spec fn shown(hits: Seq<bool>, context: (usize, usize), index: int) -> bool {
    exists|h: int|
        0 <= h < hits.len() && #[trigger] hits[h] && h - context.0 <= index <= h + context.1
}

/// The indices below `upto` of the lines that are shown, in rising order.
pub open spec fn shown_indices(hits: Seq<bool>, context: (usize, usize), upto: int) -> Seq<int>
    decreases upto,
{
    if upto <= 0 {
        Seq::empty()
    } else if shown(hits, context, upto - 1) {
        shown_indices(hits, context, upto - 1).push(upto - 1)
    } else {
        shown_indices(hits, context, upto - 1)
    }
}

/// Which lines of a text match a query.
pub open spec fn search_hits(lines: Seq<Seq<char>>, query: Seq<char>, ignore_case: bool) -> Seq<
    bool,
> {
    Seq::new(lines.len(), |i: int| line_matches(query, lines[i], ignore_case))
}

/// What a search prints: the lines that are shown, in order.
pub open spec fn search_result(
    text: Seq<char>,
    query: Seq<char>,
    ignore_case: bool,
    line_numbers: bool,
    context: (usize, usize),
) -> Seq<Seq<char>> {
    let lines = text_lines(text);
    let indices = shown_indices(
        search_hits(lines, query, ignore_case),
        context,
        lines.len() as int,
    );
    Seq::new(indices.len(), |k: int| printed_line(lines[indices[k]], indices[k], line_numbers))
}

/// The lines of `text`.
pub fn lines_of(text: &str) -> (lines: Vec<String>)
    ensures
        strings_view(lines@) == text_lines(text@),
{
    let chars = str_to_chars(text);
    let v = chars.as_slice();
    let mut lines: Vec<String> = Vec::new();
    let ghost done: Seq<Seq<char>> = Seq::empty();
    let mut start: usize = 0;
    proof {
        assert(v@.skip(0) =~= v@);
        assert(done + text_lines(v@) =~= text_lines(v@));
        assert(strings_view(lines@) =~= done);
    }
    while start < v.len()
        invariant
            start <= v@.len(),
            v@ == text@,
            strings_view(lines@) == done,
            text_lines(v@) == done + text_lines(v@.skip(start as int)),
        decreases v@.len() - start,
    {
        let end = find_char(v, '\n', start);
        let ghost rest = v@.skip(start as int);
        proof {
            lemma_index_of_char_skip(v@, '\n', start as int, start as int);
            assert(index_of_char(rest, '\n', 0) == end - start);
        }
        let stop = if end < v.len() && end > start && v[end - 1] == '\r' {
            end - 1
        } else {
            end
        };
        let line = chars_to_string(v, start, stop);
        let ghost before = strings_view(lines@);
        lines.push(line);
        proof {
            assert(strings_view(lines@) =~= before.push(line@));
            if end < v@.len() {
                assert(rest.take(end - start) =~= v@.subrange(start as int, end as int));
                assert(line@ =~= strip_cr(rest.take(end - start)));
                assert(rest.skip(end - start + 1) =~= v@.skip(end + 1));
                assert(done + text_lines(rest) =~= done.push(line@) + text_lines(
                    v@.skip(end + 1),
                ));
            } else {
                assert(line@ =~= rest);
                assert(v@.skip(v@.len() as int) =~= Seq::<char>::empty());
                assert(done + text_lines(rest) =~= done.push(line@) + text_lines(
                    v@.skip(v@.len() as int),
                ));
            }
            done = done.push(line@);
        }
        start = if end < v.len() {
            end + 1
        } else {
            end
        };
    }
    proof {
        assert(v@.skip(start as int) =~= Seq::<char>::empty());
        assert(done + text_lines(v@.skip(start as int)) =~= done);
    }
    lines
}

/// Whether `needle` occurs in `hay`.
pub fn str_contains(hay: &str, needle: &str) -> (r: bool)
    ensures
        r == contains(hay@, needle@),
{
    let h = str_to_chars(hay);
    let n = str_to_chars(needle);
    if n.len() > h.len() {
        proof {
            assert forall|at: int| !occurs_at(hay@, needle@, at) by {}
        }
        return false;
    }
    let last: usize = h.len() - n.len();
    let mut at: usize = 0;
    loop
        invariant
            h@ == hay@,
            n@ == needle@,
            n@.len() <= h@.len() <= usize::MAX,
            last == h@.len() - n@.len(),
            at <= last,
            forall|k: int| 0 <= k < at ==> !occurs_at(hay@, needle@, k),
        decreases last - at,
    {
        let mut k: usize = 0;
        while k < n.len() && h[at + k] == n[k]
            invariant
                at <= last,
                n@.len() <= h@.len() <= usize::MAX,
                last == h@.len() - n@.len(),
                k <= n@.len(),
                forall|j: int| 0 <= j < k ==> h@[at + j] == n@[j],
            decreases n@.len() - k,
        {
            k += 1;
        }
        if k == n.len() {
            proof {
                assert(h@.subrange(at as int, at + n@.len()) =~= n@);
                assert(occurs_at(hay@, needle@, at as int));
            }
            return true;
        }
        proof {
            assert(h@.subrange(at as int, at + n@.len())[k as int] == h@[at + k]);
        }
        if at == last {
            proof {
                assert forall|x: int| !occurs_at(hay@, needle@, x) by {}
            }
            return false;
        }
        at += 1;
    }
}

/// Whether `result` is what a search over `lines` prints, where `hits`
/// tells for each line what `should_add` answered: the lines that are
/// shown, each as `line_printer` renders it, in order.
pub open spec fn closure_result<R, S>(
    lines: Seq<&str>,
    query: &str,
    should_add: R,
    line_printer: S,
    context: (usize, usize),
    hits: Seq<bool>,
    result: Seq<String>,
) -> bool where R: Fn(&str, &str, usize) -> bool, S: Fn(&str, usize) -> String {
    let indices = shown_indices(hits, context, lines.len() as int);
    &&& hits.len() == lines.len()
    &&& forall|i: int|
        0 <= i < lines.len() ==> call_ensures(
            should_add,
            (query, lines[i], i as usize),
            #[trigger] hits[i],
        )
    &&& result.len() == indices.len()
    &&& forall|k: int|
        0 <= k < result.len() ==> call_ensures(
            line_printer,
            (lines[indices[k]], indices[k] as usize),
            #[trigger] result[k],
        )
}

/// One more answer changes what is shown by the lines around it.
pub proof fn lemma_shown_push(hits: Seq<bool>, hit: bool, context: (usize, usize), index: int)
    ensures
        shown(hits.push(hit), context, index) == (shown(hits, context, index) || (hit
            && hits.len() - context.0 <= index <= hits.len() + context.1)),
{
    let more = hits.push(hit);
    let n = hits.len() as int;
    if shown(more, context, index) {
        let h = choose|h: int|
            0 <= h < more.len() && #[trigger] more[h] && h - context.0 <= index <= h
                + context.1;
        if h < n {
            assert(hits[h]);
        }
    }
    if shown(hits, context, index) {
        let h = choose|h: int|
            0 <= h < hits.len() && #[trigger] hits[h] && h - context.0 <= index <= h
                + context.1;
        assert(more[h]);
    }
    if hit && n - context.0 <= index <= n + context.1 {
        assert(more[n]);
    }
}

/// The indices that are shown all lie below the bound.
pub proof fn lemma_shown_indices(hits: Seq<bool>, context: (usize, usize), upto: int)
    ensures
        forall|k: int|
            0 <= k < shown_indices(hits, context, upto).len() ==> 0 <= #[trigger] shown_indices(
                hits,
                context,
                upto,
            )[k] < upto,
    decreases upto,
{
    let now = shown_indices(hits, context, upto);
    if upto > 0 {
        lemma_shown_indices(hits, context, upto - 1);
        let before = shown_indices(hits, context, upto - 1);
        assert forall|k: int| 0 <= k < now.len() implies 0 <= #[trigger] now[k] < upto by {
            if k < before.len() {
                assert(now[k] == before[k]);
            }
        }
    }
}

pub fn seach_closure<R, S>(
    query: &str,
    text: &str,
    should_add: R,
    line_printer: S,
    context: (usize, usize),
) -> (result: Vec<String>) where
    R: Fn(&str, &str, usize) -> bool,
    S: Fn(&str, usize) -> String,

    requires
        text_lines(text@).len() + context.1 <= usize::MAX,
        forall|q: &str, l: &str, i: usize| call_requires(should_add, (q, l, i)),
        forall|l: &str, i: usize| call_requires(line_printer, (l, i)),
    ensures
        exists|lines: Seq<&str>, hits: Seq<bool>|
            strs_view(lines) == text_lines(text@) && closure_result(
                lines,
                query,
                should_add,
                line_printer,
                context,
                hits,
                result@,
            ),
{
    let owned = lines_of(text);
    let n = owned.len();
    let mut lines: Vec<&str> = Vec::new();
    let mut marks: Vec<bool> = Vec::new();
    let mut k: usize = 0;
    while k < n
        invariant
            k <= n,
            n == owned@.len(),
            lines@.len() == k,
            marks@.len() == k,
            forall|j: int| 0 <= j < k ==> (#[trigger] lines@[j])@ == owned@[j]@,
            forall|j: int| 0 <= j < k ==> !(#[trigger] marks@[j]),
        decreases n - k,
    {
        lines.push(owned[k].as_str());
        marks.push(false);
        k += 1;
    }
    proof {
        assert(strs_view(lines@) =~= text_lines(text@));
    }
    let ghost mut hits: Seq<bool> = Seq::empty();
    let mut i: usize = 0;
    while i < n
        invariant
            i <= n,
            n == lines@.len(),
            marks@.len() == n,
            hits.len() == i,
            n + context.1 <= usize::MAX,
            forall|q: &str, l: &str, x: usize| call_requires(should_add, (q, l, x)),
            forall|j: int|
                0 <= j < i ==> call_ensures(
                    should_add,
                    (query, lines@[j], j as usize),
                    #[trigger] hits[j],
                ),
            forall|j: int| 0 <= j < n ==> #[trigger] marks@[j] == shown(hits, context, j),
        decreases n - i,
    {
        let hit = should_add(query, lines[i], i);
        let ghost before = hits;
        proof {
            hits = hits.push(hit);
            assert forall|j: int| 0 <= j < n implies shown(hits, context, j) == (shown(
                before,
                context,
                j,
            ) || (hit && i - context.0 <= j <= i + context.1)) by {
                lemma_shown_push(before, hit, context, j);
            }
        }
        if hit {
            let from = i.saturating_sub(context.0);
            let to = if i + context.1 < n - 1 {
                i + context.1
            } else {
                n - 1
            };
            let mut j: usize = from;
            while j <= to
                invariant
                    from <= j <= to + 1,
                    to < n,
                    marks@.len() == n,
                    forall|x: int|
                        0 <= x < n ==> #[trigger] marks@[x] == (shown(before, context, x) || (
                        from <= x < j)),
                decreases to + 1 - j,
            {
                marks.set(j, true);
                j += 1;
            }
        }
        i += 1;
    }
    let mut result: Vec<String> = Vec::new();
    let mut i: usize = 0;
    proof {
        lemma_shown_indices(hits, context, n as int);
    }
    while i < n
        invariant
            i <= n,
            n == lines@.len(),
            marks@.len() == n,
            hits.len() == n,
            forall|l: &str, x: usize| call_requires(line_printer, (l, x)),
            forall|j: int| 0 <= j < n ==> #[trigger] marks@[j] == shown(hits, context, j),
            result@.len() == shown_indices(hits, context, i as int).len(),
            forall|k: int|
                0 <= k < result@.len() ==> call_ensures(
                    line_printer,
                    (
                        lines@[shown_indices(hits, context, i as int)[k]],
                        shown_indices(hits, context, i as int)[k] as usize,
                    ),
                    #[trigger] result@[k],
                ),
        decreases n - i,
    {
        let ghost before = shown_indices(hits, context, i as int);
        if marks[i] {
            let printed = line_printer(lines[i], i);
            result.push(printed);
        }
        i += 1;
        proof {
            let now = shown_indices(hits, context, i as int);
            assert forall|k: int| 0 <= k < result@.len() implies call_ensures(
                line_printer,
                (lines@[now[k]], now[k] as usize),
                #[trigger] result@[k],
            ) by {
                if k < before.len() {
                    assert(now[k] == before[k]);
                }
            }
        }
    }
    proof {
        assert(closure_result(lines@, query, should_add, line_printer, context, hits, result@));
    }
    result
}

pub fn search(text: &str, config: &Config) -> (result: Vec<String>)
    requires
        text_lines(text@).len() + config.context.1 <= usize::MAX,
    ensures
        strings_view(result@) == search_result(
            text@,
            config.query@,
            config.ignore_case,
            config.line_numbers,
            config.context,
        ),
{
    let query = if config.ignore_case {
        to_lowercase(config.query)
    } else {
        config.query.to_owned()
    };
    let ignore_case = config.ignore_case;
    let line_numbers = config.line_numbers;
    let line_printer = |line: &str, i: usize| -> (s: String)
        ensures
            i < usize::MAX ==> s@ == printed_line(line@, i as int, line_numbers),
        {
            if line_numbers && i < usize::MAX {
                let mut s = usize_to_string(i + 1);
                proof {
                    reveal_strlit(": ");
                    assert(": "@ =~= seq![':', ' ']);
                }
                s.append(": ");
                s.append(line);
                s
            } else {
                line.to_owned()
            }
        };
    let should_add = |query: &str, line: &str, _i: usize| -> (b: bool)
        ensures
            b == if ignore_case {
                contains(unicode_lowercase(line@), query@)
            } else {
                contains(line@, query@)
            },
        {
            if ignore_case {
                str_contains(to_lowercase(line).as_str(), query)
            } else {
                str_contains(line, query)
            }
        };
    let wanted: &str = query.as_str();
    let result = seach_closure(wanted, text, should_add, line_printer, config.context);
    proof {
        let (lines, hits) = choose|lines: Seq<&str>, hits: Seq<bool>|
            strs_view(lines) == text_lines(text@) && closure_result(
                lines,
                wanted,
                should_add,
                line_printer,
                config.context,
                hits,
                result@,
            );
        let texts = text_lines(text@);
        assert forall|i: int| 0 <= i < hits.len() implies hits[i] == line_matches(
            config.query@,
            texts[i],
            ignore_case,
        ) by {
            assert(lines[i]@ == strs_view(lines)[i]);
            assert(call_ensures(should_add, (wanted, lines[i], i as usize), hits[i]));
        }
        assert(hits =~= search_hits(texts, config.query@, ignore_case));
        let indices = shown_indices(hits, config.context, texts.len() as int);
        lemma_shown_indices(hits, config.context, texts.len() as int);
        let expected = search_result(
            text@,
            config.query@,
            config.ignore_case,
            config.line_numbers,
            config.context,
        );
        assert forall|k: int| 0 <= k < result@.len() implies strings_view(result@)[k]
            == expected[k] by {
            assert(call_ensures(
                line_printer,
                (lines[indices[k]], indices[k] as usize),
                result@[k],
            ));
            assert(lines[indices[k]]@ == strs_view(lines)[indices[k]]);
        }
        assert(strings_view(result@) =~= expected);
    }
    result
}

#[derive(PartialEq, Eq, Hash, Debug)]
pub enum Flag {
    CaseInsensitve,
    LineNumber,
    Before(usize),
    After(usize),
    Context(usize),
}

#[derive(Debug)]
pub struct Arg<'a> {
    pub text: &'a str,
    pub consumed: bool,
}

impl<'a> Arg<'a> {
    pub fn new(text: &'a str) -> (arg: Self)
        ensures
            arg.text == text,
            !arg.consumed,
    {
        Arg { text, consumed: false }
    }
}

#[derive(Debug)]
pub struct MyErr {
    pub message: String,
}

impl MyErr {
    pub fn new(message: &str) -> (e: Self)
        ensures
            e.message@ == message@,
    {
        MyErr { message: message.to_owned() }
    }

    pub fn boxed(message: &str) -> (e: Box<Self>)
        ensures
            e.message@ == message@,
    {
        Box::new(Self::new(message))
    }
}

/// Whether an argument has the shape of a flag: a hyphen and one ASCII character.
pub open spec fn flag_shaped(text: Seq<char>) -> bool {
    text.len() == 2 && text[0] == '-' && (text[1] as u32) < 128
}

/// The number that an argument denotes, if it denotes one that fits.
pub open spec fn usize_of(text: Seq<char>) -> Option<usize> {
    match parse_decimal(text) {
        Some(n) if n <= usize::MAX => Some(n as usize),
        _ => None,
    }
}

/// What is said of a flag that lacks its number.
pub open spec fn missing_number_message(flag: Seq<char>) -> Seq<char> {
    "Please provide a number argument for the "@ + flag + " flag"@
}

/// What is said of a flag that does not exist.
pub open spec fn unknown_flag_message(flag: Seq<char>) -> Seq<char> {
    "Flag "@ + flag + " doesnt exist"@
}

/// What is said of an argument that is no number.
pub open spec fn bad_number_message(text: Seq<char>) -> Seq<char> {
    "Invalid number: "@ + text
}

/// The number behind a flag, or the message of the error: the argument is
/// missing or is no number.
pub open spec fn flag_number(flag: Seq<char>, next: Option<Seq<char>>) -> Result<
    usize,
    Seq<char>,
> {
    match next {
        None => Err(missing_number_message(flag)),
        Some(text) => match usize_of(text) {
            Some(n) => Ok(n),
            None => Err(bad_number_message(text)),
        },
    }
}

/// The flag that an argument denotes, if it has the shape of one, or the
/// message of the error. `next` is the argument that follows.
pub open spec fn flag_of(text: Seq<char>, next: Option<Seq<char>>) -> Result<
    Option<Flag>,
    Seq<char>,
> {
    if !flag_shaped(text) {
        Ok(None)
    } else if text == "-i"@ {
        Ok(Some(Flag::CaseInsensitve))
    } else if text == "-a"@ {
        match flag_number(text, next) {
            Ok(n) => Ok(Some(Flag::After(n))),
            Err(m) => Err(m),
        }
    } else if text == "-b"@ {
        match flag_number(text, next) {
            Ok(n) => Ok(Some(Flag::Before(n))),
            Err(m) => Err(m),
        }
    } else if text == "-c"@ {
        match flag_number(text, next) {
            Ok(n) => Ok(Some(Flag::Context(n))),
            Err(m) => Err(m),
        }
    } else if text == "-n"@ {
        Ok(Some(Flag::LineNumber))
    } else {
        Err(unknown_flag_message(text))
    }
}

/// The text of an optional argument.
pub open spec fn arg_text(arg: Option<&mut Arg>) -> Option<Seq<char>> {
    match arg {
        Some(a) => Some(a.text@),
        None => None,
    }
}

pub fn read_usize_flag(flag_name: &str, arg: Option<&mut Arg>) -> (r: Result<usize, MyErr>)
    ensures
        match flag_number(flag_name@, arg_text(arg)) {
            Ok(n) => r == Ok::<usize, MyErr>(n),
            Err(m) => r is Err && r->Err_0.message@ == m,
        },
        match arg {
            Some(a) => final(a).text == a.text && final(a).consumed == (a.consumed || r is Ok),
            None => true,
        },
{
    match arg {
        None => {
            let mut message = "Please provide a number argument for the ".to_owned();
            message.append(flag_name);
            message.append(" flag");
            Err(MyErr { message })
        },
        Some(arg) => {
            match parse_usize(arg.text) {
                Some(number) => {
                    arg.consumed = true;
                    Ok(number)
                },
                None => {
                    let mut message = "Invalid number: ".to_owned();
                    message.append(arg.text);
                    Err(MyErr { message })
                },
            }
        },
    }
}

impl Flag {
    pub fn parse(arg: &Arg, next: Option<&mut Arg>) -> (r: Result<Option<Self>, MyErr>)
        ensures
            match flag_of(arg.text@, arg_text(next)) {
                Ok(flag) => r == Ok::<Option<Flag>, MyErr>(flag),
                Err(m) => r is Err && r->Err_0.message@ == m,
            },
            match next {
                Some(a) => final(a).text == a.text && final(a).consumed == (a.consumed || (r
                    matches Ok(Some(flag)) && takes_number(flag))),
                None => true,
            },
    {
        let chars = str_to_chars(arg.text);
        if chars.len() != 2 || chars[0] != '-' || (chars[1] as u32) >= 128 {
            return Ok(None);
        }
        if str_eq(arg.text, "-i") {
            Ok(Some(Flag::CaseInsensitve))
        } else if str_eq(arg.text, "-a") {
            match read_usize_flag("-a", next) {
                Ok(number) => Ok(Some(Flag::After(number))),
                Err(e) => Err(e),
            }
        } else if str_eq(arg.text, "-b") {
            match read_usize_flag("-b", next) {
                Ok(number) => Ok(Some(Flag::Before(number))),
                Err(e) => Err(e),
            }
        } else if str_eq(arg.text, "-c") {
            match read_usize_flag("-c", next) {
                Ok(number) => Ok(Some(Flag::Context(number))),
                Err(e) => Err(e),
            }
        } else if str_eq(arg.text, "-n") {
            Ok(Some(Flag::LineNumber))
        } else {
            let mut message = "Flag ".to_owned();
            message.append(arg.text);
            message.append(" doesnt exist");
            Err(MyErr { message })
        }
    }
}

/// What a scan of the arguments has found so far.
pub struct Scan {
    /// The places of the query and of the path among the arguments.
    pub query: Option<int>,
    pub file_path: Option<int>,
    pub ignore_case: bool,
    pub line_numbers: bool,
    pub context: (usize, usize),
}

/// The findings after a flag was read.
pub open spec fn apply_flag(scan: Scan, flag: Flag) -> Scan {
    match flag {
        Flag::CaseInsensitve => Scan { ignore_case: true, ..scan },
        Flag::LineNumber => Scan { line_numbers: true, ..scan },
        Flag::Before(n) => Scan { context: (n, scan.context.1), ..scan },
        Flag::After(n) => Scan { context: (scan.context.0, n), ..scan },
        Flag::Context(n) => Scan { context: (n, n), ..scan },
    }
}

/// The findings of a scan of the arguments from the place `i` on, or the
/// message of the first error. A flag that takes a number takes the next
/// argument with it; the first two other arguments are the query and the
/// path, and a third is an error.
pub open spec fn scan_args(args: Seq<Seq<char>>, i: int, scan: Scan) -> Result<Scan, Seq<char>>
    decreases args.len() - i,
{
    if i < 0 || i >= args.len() {
        Ok(scan)
    } else {
        let next = if i + 1 < args.len() {
            Some(args[i + 1])
        } else {
            None
        };
        match flag_of(args[i], next) {
            Err(m) => Err(m),
            Ok(Some(flag)) => scan_args(
                args,
                if takes_number(flag) {
                    i + 2
                } else {
                    i + 1
                },
                apply_flag(scan, flag),
            ),
            Ok(None) => if scan.query is None {
                scan_args(args, i + 1, Scan { query: Some(i), ..scan })
            } else if scan.file_path is None {
                scan_args(args, i + 1, Scan { file_path: Some(i), ..scan })
            } else {
                Err("Too many arguments! Please suply the query and a path."@)
            },
        }
    }
}

/// The findings with which every scan begins.
pub open spec fn empty_scan() -> Scan {
    Scan { query: None, file_path: None, ignore_case: false, line_numbers: false, context: (0, 0) }
}

/// The findings of a whole command line, whose first argument names the
/// program, or the message of the error.
pub open spec fn scan_command_line(args: Seq<Seq<char>>) -> Result<Scan, Seq<char>> {
    if args.len() < 3 {
        Err(
            "Incorrect program usage! Please supply two arguments: a query and a path and optional flags preceded by -"@,
        )
    } else {
        match scan_args(args, 1, empty_scan()) {
            Err(m) => Err(m),
            Ok(scan) => if scan.query is None || scan.file_path is None {
                Err("Please supply two non flag arguments!"@)
            } else {
                Ok(scan)
            },
        }
    }
}

impl<'a> Config<'a> {
    /// Whether the configuration is what `scan` found among `args`, with
    /// case ignored also where `ignore_case_env` asks for it.
    pub open spec fn holds(&self, args: Seq<String>, scan: Scan, ignore_case_env: bool) -> bool {
        &&& scan.query is Some && 0 <= scan.query->0 < args.len()
        &&& scan.file_path is Some && 0 <= scan.file_path->0 < args.len()
        &&& self.query@ == args[scan.query->0]@
        &&& self.file_path@ == args[scan.file_path->0]@
        &&& self.ignore_case == (scan.ignore_case || ignore_case_env)
        &&& self.line_numbers == scan.line_numbers
        &&& self.context == scan.context
    }

    /// Reads a configuration from a command line. `ignore_case_env` tells
    /// whether the environment asks to ignore case.
    pub fn build(args: &'a [String], ignore_case_env: bool) -> (r: Result<Self, MyErr>)
        ensures
            match scan_command_line(strings_view(args@)) {
                Ok(scan) => r is Ok && r->Ok_0.holds(args@, scan, ignore_case_env),
                Err(m) => r is Err && r->Err_0.message@ == m,
            },
    {
        if args.len() < 3 {
            return Err(
                MyErr::new(
                    "Incorrect program usage! Please supply two arguments: a query and a path and optional flags preceded by -",
                ),
            );
        }
        let mut query: Option<&'a str> = None;
        let mut file_path: Option<&'a str> = None;
        let mut ignore_case = false;
        let mut line_numbers = false;
        let mut context: (usize, usize) = (0, 0);
        let ghost texts = strings_view(args@);
        let ghost mut scan = empty_scan();
        let mut i: usize = 1;
        while i < args.len()
            invariant
                1 <= i <= args@.len() + 1,
                args@.len() >= 3,
                texts == strings_view(args@),
                scan_args(texts, i as int, scan) == scan_args(texts, 1, empty_scan()),
                scan.ignore_case == ignore_case,
                scan.line_numbers == line_numbers,
                scan.context == context,
                match query {
                    Some(q) => scan.query is Some && 0 <= scan.query->0 < args@.len() && q@
                        == args@[scan.query->0]@,
                    None => scan.query is None,
                },
                match file_path {
                    Some(p) => scan.file_path is Some && 0 <= scan.file_path->0 < args@.len()
                        && p@ == args@[scan.file_path->0]@,
                    None => scan.file_path is None,
                },
            decreases args@.len() + 1 - i,
        {
            let arg = Arg::new(args[i].as_str());
            let mut follower = Arg::new(
                if i + 1 < args.len() {
                    args[i + 1].as_str()
                } else {
                    ""
                },
            );
            proof {
                assert(texts[i as int] == arg.text@);
                if i + 1 < args@.len() {
                    assert(texts[i + 1] == follower.text@);
                }
            }
            let next = if i + 1 < args.len() {
                Some(&mut follower)
            } else {
                None
            };
            let flag = match Flag::parse(&arg, next) {
                Ok(flag) => flag,
                Err(e) => {
                    return Err(e);
                },
            };
            match flag {
                Some(flag) => {
                    proof {
                        scan = apply_flag(scan, flag);
                    }
                    match flag {
                        Flag::CaseInsensitve => {
                            ignore_case = true;
                        },
                        Flag::LineNumber => {
                            line_numbers = true;
                        },
                        Flag::Before(n) => {
                            context.0 = n;
                        },
                        Flag::After(n) => {
                            context.1 = n;
                        },
                        Flag::Context(n) => {
                            context.0 = n;
                            context.1 = n;
                        },
                    }
                },
                None => {
                    if query.is_none() {
                        query = Some(arg.text);
                        proof {
                            scan = Scan { query: Some(i as int), ..scan };
                        }
                    } else if file_path.is_none() {
                        file_path = Some(arg.text);
                        proof {
                            scan = Scan { file_path: Some(i as int), ..scan };
                        }
                    } else {
                        return Err(
                            MyErr::new("Too many arguments! Please suply the query and a path."),
                        );
                    }
                },
            }
            if follower.consumed {
                i += 2;
            } else {
                i += 1;
            }
        }
        let query = match query {
            Some(q) => q,
            None => {
                return Err(MyErr::new("Please supply two non flag arguments!"));
            },
        };
        let file_path = match file_path {
            Some(p) => p,
            None => {
                return Err(MyErr::new("Please supply two non flag arguments!"));
            },
        };
        if ignore_case_env {
            ignore_case = true;
        }
        Ok(Config { query, file_path, ignore_case, line_numbers, context })
    }
}

/// Whether a flag is followed by a number.
pub open spec fn takes_number(flag: Flag) -> bool {
    flag is Before || flag is After || flag is Context
}

} // verus!
