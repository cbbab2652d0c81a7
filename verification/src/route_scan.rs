//! Scanning controller source lines for route attributes, and looking up a
//! controller's source file in the routes index.
use vstd::prelude::*;

use crate::text::{has_prefix, lemma_split_on_push, lemma_split_on_stable, split_on, starts_with};

verus! {

/// Matches a function header and captures the function's name.
pub const FUNCTION_PATTERN: &'static str = r"fn\s+([a-zA-Z_][a-zA-Z0-9_]*)\(";

/// Matches a route attribute and captures the name of its HTTP method.
pub const METHOD_NAME_PATTERN: &'static str = r"#\[(.*)\(.*\)\]";

/// Matches a route attribute and captures its quoted path.
pub const ROUTE_PATTERN: &'static str = r#"#\[.*\("(.*)"\)\]"#;

/// The text of capture group `group` in the leftmost-first match of the
/// regular expression `pattern` in `haystack`; `None` when the pattern does not
/// compile, does not match, or the group took no part in the match.
pub uninterp spec fn regex_capture(pattern: Seq<char>, haystack: Seq<char>, group: nat) -> Option<Seq<char>>;

/// Compiles `pattern` with `regex::Regex::new` and runs `Regex::captures` on
/// `haystack`, returning the text of capture group `group` of the match
/// (`Captures::get`, `Match::as_str`). Trusted: the result is what the regex
/// crate computes, named `regex_capture`; nothing more is claimed of it.
#[verifier::external_body]
pub(crate) fn capture_group(pattern: &str, haystack: &str, group: usize) -> (r: Option<String>)
    ensures
        match r {
            Some(t) => regex_capture(pattern@, haystack@, group as nat) == Some(t@),
            None => regex_capture(pattern@, haystack@, group as nat) is None,
        },
{
    let re = regex::Regex::new(pattern).ok()?;
    let caps = re.captures(haystack)?;
    match caps.get(group) {
        Some(m) => Some(m.as_str().to_string()),
        None => None,
    }
}

/// A line that opens a route attribute: it starts with `#[get`, `#[post`,
/// `#[put`, `#[delete` or `#[patch`.
pub open spec fn is_route_attribute(line: Seq<char>) -> bool {
    ||| has_prefix(line, "#[get"@)
    ||| has_prefix(line, "#[post"@)
    ||| has_prefix(line, "#[put"@)
    ||| has_prefix(line, "#[delete"@)
    ||| has_prefix(line, "#[patch"@)
}

/// The route described by an attribute line and the function line after it:
/// `(method name, route path, function name)`, or `None` when one of the
/// three patterns finds nothing.
pub open spec fn route_of(attribute: Seq<char>, function: Seq<char>) -> Option<(Seq<char>, Seq<char>, Seq<char>)> {
    route_from(
        regex_capture(FUNCTION_PATTERN@, function, 1),
        regex_capture(METHOD_NAME_PATTERN@, attribute, 1),
        regex_capture(ROUTE_PATTERN@, attribute, 1),
    )
}

/// The route `(method name, route path, function name)` made of the three
/// captured texts, or `None` when one of them is missing.
pub open spec fn route_from(
    function: Option<Seq<char>>,
    method: Option<Seq<char>>,
    route: Option<Seq<char>>,
) -> Option<(Seq<char>, Seq<char>, Seq<char>)> {
    match (function, method, route) {
        (Some(f), Some(m), Some(p)) => Some((m, p, f)),
        _ => None,
    }
}

/// The character sequence of an optional string.
pub open spec fn opt_view(s: Option<String>) -> Option<Seq<char>> {
    match s {
        Some(t) => Some(t@),
        None => None,
    }
}

/// Builds the route `(method name, route path, function name)` from the
/// function name captured in the function line and the method name and path
/// captured in the attribute line; `None` when one of them is missing.
pub fn route_from_captures(
    function: Option<String>,
    method: Option<String>,
    route: Option<String>,
) -> (r: Option<(String, String, String)>)
    ensures
        match r {
            Some(t) => route_from(opt_view(function), opt_view(method), opt_view(route)) == Some((t.0@, t.1@, t.2@)),
            None => route_from(opt_view(function), opt_view(method), opt_view(route)) is None,
        },
{
    match (function, method, route) {
        (Some(f), Some(m), Some(p)) => Some((m, p, f)),
        _ => None,
    }
}

/// The routes declared in `lines` from index `i` on. Each route attribute line
/// is read together with the line that follows it, which is then skipped;
/// `None` when an attribute line is the last line or its route cannot be read.
pub open spec fn scan_routes(lines: Seq<Seq<char>>, i: int) -> Option<Seq<(Seq<char>, Seq<char>, Seq<char>)>>
    decreases lines.len() - i,
{
    if i >= lines.len() || i < 0 {
        Some(Seq::empty())
    } else if !is_route_attribute(lines[i]) {
        scan_routes(lines, i + 1)
    } else if i + 1 >= lines.len() {
        None
    } else {
        match route_of(lines[i], lines[i + 1]) {
            None => None,
            Some(route) => match scan_routes(lines, i + 2) {
                Some(rest) => Some(seq![route] + rest),
                None => None,
            },
        }
    }
}

/// The HTTP verbs whose attributes declare routes: `get`, `post`, `put`,
/// `delete` and `patch`.
pub open spec fn is_route_verb(verb: Seq<char>) -> bool {
    verb == seq!['g', 'e', 't'] || verb == seq!['p', 'o', 's', 't'] || verb == seq!['p', 'u', 't']
        || verb == seq!['d', 'e', 'l', 'e', 't', 'e'] || verb == seq!['p', 'a', 't', 'c', 'h']
}

/// `line` begins with `#[` followed by `verb`.
pub open spec fn opens_with_verb(line: Seq<char>, verb: Seq<char>) -> bool {
    line.len() >= verb.len() + 2 && line.subrange(0, verb.len() + 2int) == seq!['#', '['] + verb
}

/// A line that begins with `#[get`, `#[post`, `#[put`, `#[delete` or `#[patch`,
/// followed by another line, is read as a route together with that line,
/// which is then skipped: the scan gives that route in front of the routes
/// after the pair, and fails where the route cannot be read.
pub proof fn law_route_attributes_are_scanned(lines: Seq<Seq<char>>, i: int, verb: Seq<char>)
    requires
        0 <= i,
        i + 1 < lines.len(),
        is_route_verb(verb),
        opens_with_verb(lines[i], verb),
    ensures
        scan_routes(lines, i) == match route_of(lines[i], lines[i + 1]) {
            None => None,
            Some(route) => match scan_routes(lines, i + 2) {
                Some(rest) => Some(seq![route] + rest),
                None => None,
            },
        },
{
    reveal_strlit("#[get");
    reveal_strlit("#[post");
    reveal_strlit("#[put");
    reveal_strlit("#[delete");
    reveal_strlit("#[patch");
    let line = lines[i];
    let p = seq!['#', '['] + verb;
    assert(has_prefix(line, p));
    if verb == seq!['g', 'e', 't'] {
        assert(p =~= "#[get"@);
    } else if verb == seq!['p', 'o', 's', 't'] {
        assert(p =~= "#[post"@);
    } else if verb == seq!['p', 'u', 't'] {
        assert(p =~= "#[put"@);
    } else if verb == seq!['d', 'e', 'l', 'e', 't', 'e'] {
        assert(p =~= "#[delete"@);
    } else {
        assert(p =~= "#[patch"@);
    }
    assert(is_route_attribute(line));
}

/// A line that begins with none of the five route attributes is passed over:
/// the scan from it is the scan from the next line.
pub proof fn law_other_lines_are_skipped(lines: Seq<Seq<char>>, i: int)
    requires
        0 <= i < lines.len(),
        forall|verb: Seq<char>| #[trigger] is_route_verb(verb) ==> !opens_with_verb(lines[i], verb),
    ensures
        scan_routes(lines, i) == scan_routes(lines, i + 1),
{
    reveal_strlit("#[get");
    reveal_strlit("#[post");
    reveal_strlit("#[put");
    reveal_strlit("#[delete");
    reveal_strlit("#[patch");
    let line = lines[i];
    assert(is_route_verb(seq!['g', 'e', 't']));
    assert(!opens_with_verb(line, seq!['g', 'e', 't']));
    assert(is_route_verb(seq!['p', 'o', 's', 't']));
    assert(!opens_with_verb(line, seq!['p', 'o', 's', 't']));
    assert(is_route_verb(seq!['p', 'u', 't']));
    assert(!opens_with_verb(line, seq!['p', 'u', 't']));
    assert(is_route_verb(seq!['d', 'e', 'l', 'e', 't', 'e']));
    assert(!opens_with_verb(line, seq!['d', 'e', 'l', 'e', 't', 'e']));
    assert(is_route_verb(seq!['p', 'a', 't', 'c', 'h']));
    assert(!opens_with_verb(line, seq!['p', 'a', 't', 'c', 'h']));
    assert(seq!['#', '['] + seq!['g', 'e', 't'] =~= "#[get"@);
    assert(seq!['#', '['] + seq!['p', 'o', 's', 't'] =~= "#[post"@);
    assert(seq!['#', '['] + seq!['p', 'u', 't'] =~= "#[put"@);
    assert(seq!['#', '['] + seq!['d', 'e', 'l', 'e', 't', 'e'] =~= "#[delete"@);
    assert(seq!['#', '['] + seq!['p', 'a', 't', 'c', 'h'] =~= "#[patch"@);
    assert(!is_route_attribute(line));
}

/// The character sequences of a list of lines.
pub open spec fn lines_view(lines: Seq<String>) -> Seq<Seq<char>> {
    lines.map_values(|l: String| l@)
}

/// The character sequences of a list of routes.
pub open spec fn routes_view(routes: Seq<(String, String, String)>) -> Seq<(Seq<char>, Seq<char>, Seq<char>)> {
    routes.map_values(|t: (String, String, String)| (t.0@, t.1@, t.2@))
}

/// Whether a line opens a route attribute.
fn is_route_attribute_line(line: &str) -> (r: bool)
    ensures
        r == is_route_attribute(line@),
{
    starts_with(line, "#[get") || starts_with(line, "#[post") || starts_with(line, "#[put")
        || starts_with(line, "#[delete") || starts_with(line, "#[patch")
}

/// Reads the route of an attribute line and the function line after it.
fn read_route(attribute: &str, function: &str) -> (r: Option<(String, String, String)>)
    ensures
        match r {
            Some(t) => route_of(attribute@, function@) == Some((t.0@, t.1@, t.2@)),
            None => route_of(attribute@, function@) is None,
        },
{
    let function_name = capture_group(FUNCTION_PATTERN, function, 1);
    let method_name = capture_group(METHOD_NAME_PATTERN, attribute, 1);
    let route = capture_group(ROUTE_PATTERN, attribute, 1);
    route_from_captures(function_name, method_name, route)
}

/// Scans all lines; `None` where the scan finds a route it cannot read.
fn scan_lines(lines: &Vec<String>) -> (r: Option<Vec<(String, String, String)>>)
    ensures
        match r {
            Some(v) => scan_routes(lines_view(lines@), 0) == Some(routes_view(v@)),
            None => scan_routes(lines_view(lines@), 0) is None,
        },
{
    let ghost ls = lines_view(lines@);
    let n = lines.len();
    let mut routes: Vec<(String, String, String)> = Vec::new();
    let mut i: usize = 0;
    while i < n
        invariant
            n == lines@.len(),
            ls == lines_view(lines@),
            ls.len() == n,
            i <= n,
            scan_routes(ls, 0) == match scan_routes(ls, i as int) {
                Some(rest) => Some(routes_view(routes@) + rest),
                None => None::<Seq<(Seq<char>, Seq<char>, Seq<char>)>>,
            },
        decreases n - i,
    {
        let line = lines[i].as_str();
        assert(ls[i as int] == line@);
        if !is_route_attribute_line(line) {
            i = i + 1;
        } else if i + 1 >= n {
            return None;
        } else {
            let function = lines[i + 1].as_str();
            assert(ls[i + 1] == function@);
            match read_route(line, function) {
                None => {
                    return None;
                },
                Some(route) => {
                    let ghost before = routes@;
                    routes.push(route);
                    proof {
                        assert(routes_view(routes@) =~= routes_view(before) + seq![
                            (route.0@, route.1@, route.2@),
                        ]);
                        match scan_routes(ls, i + 2) {
                            Some(rest) => {
                                assert(routes_view(before) + (seq![(route.0@, route.1@, route.2@)] + rest)
                                    =~= routes_view(routes@) + rest);
                            },
                            None => {},
                        }
                    }
                    i = i + 2;
                },
            }
        }
    }
    proof {
        assert(routes_view(routes@) + Seq::empty() =~= routes_view(routes@));
    }
    Some(routes)
}

/// The routes declared in the lines of a controller's source file, in order,
/// as `(method name, route path, function name)`. A line that starts with a
/// route attribute (`#[get`, `#[post`, `#[put`, `#[delete`, `#[patch`) is read
/// with the line after it; the method name and path come from the attribute
/// line, the function name from the function line.
pub fn find_routes(lines: &Vec<String>) -> (r: Vec<(String, String, String)>)
    requires
        scan_routes(lines_view(lines@), 0) is Some,
    ensures
        scan_routes(lines_view(lines@), 0) == Some(routes_view(r@)),
{
    scan_lines(lines).unwrap()
}

/// `find_routes` where every route can be read; `None` where an attribute line
/// is the last line or one of the three patterns finds nothing in it or in the
/// function line after it.
pub fn try_find_routes(lines: &Vec<String>) -> (r: Option<Vec<(String, String, String)>>)
    ensures
        match r {
            Some(v) => scan_routes(lines_view(lines@), 0) == Some(routes_view(v@)),
            None => scan_routes(lines_view(lines@), 0) is None,
        },
{
    match scan_lines(lines) {
        Some(_) => Some(find_routes(lines)),
        None => None,
    }
}

/// The index of the first line that starts with `name` followed by `:`, as
/// the routes index lists controllers (`Name:path`); `None` when no line does.
pub fn find_controller_line(lines: &Vec<String>, name: &str) -> (r: Option<usize>)
    ensures
        match r {
            Some(i) => i < lines@.len() && has_prefix(lines@[i as int]@, name@ + seq![':'])
                && forall|j: int| 0 <= j < i ==> !has_prefix(#[trigger] lines@[j]@, name@ + seq![':']),
            None => forall|j: int| 0 <= j < lines@.len() ==> !has_prefix(#[trigger] lines@[j]@, name@ + seq![':']),
        },
{
    proof {
        reveal_strlit(":");
    }
    let key = name.to_owned().concat(":");
    let n = lines.len();
    let mut i: usize = 0;
    while i < n
        invariant
            n == lines@.len(),
            i <= n,
            key@ == name@ + seq![':'],
            forall|j: int| 0 <= j < i ==> !has_prefix(#[trigger] lines@[j]@, name@ + seq![':']),
        decreases n - i,
    {
        if starts_with(lines[i].as_str(), key.as_str()) {
            return Some(i);
        }
        i = i + 1;
    }
    None
}

/// The second `:`-separated piece of a routes index line, the controller's
/// source path in `Name:path`.
pub fn controller_path_of(line: &str) -> (r: String)
    requires
        split_on(line@, ':').len() >= 2,
    ensures
        r@ == split_on(line@, ':')[1],
{
    let n = line.unicode_len();
    let mut seen: usize = 0;
    let mut start: usize = 0;
    let mut i: usize = 0;
    proof {
        assert(line@.take(0) =~= Seq::<char>::empty());
    }
    while i < n
        invariant
            n == line@.len(),
            start <= i <= n,
            seen <= 1,
            split_on(line@, ':').len() >= 2,
            split_on(line@.take(i as int), ':').len() == seen + 1,
            split_on(line@.take(i as int), ':').last() == line@.subrange(start as int, i as int),
        decreases n - i,
    {
        let c = line.get_char(i);
        proof {
            assert(line@.take(i + 1) =~= line@.take(i as int).push(c));
            lemma_split_on_push(line@.take(i as int), c, ':');
        }
        if c == ':' {
            if seen == 1 {
                proof {
                    let pre = line@.take(i + 1);
                    assert(split_on(pre, ':')[1] == line@.subrange(start as int, i as int));
                    lemma_split_on_stable(pre, line@.skip(i + 1), ':', 1);
                    assert(pre + line@.skip(i + 1) =~= line@);
                }
                return line.substring_char(start, i).to_owned();
            }
            seen = 1;
            start = i + 1;
            proof {
                assert(line@.subrange(start as int, i + 1) =~= Seq::<char>::empty());
            }
        } else {
            proof {
                assert(line@.subrange(start as int, i + 1) =~= line@.subrange(start as int, i as int).push(c));
            }
        }
        i = i + 1;
    }
    proof {
        assert(line@.take(n as int) =~= line@);
    }
    line.substring_char(start, n).to_owned()
}

} // verus!
