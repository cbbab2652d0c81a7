//! The routes index: which source file declares each controller. Entries are
//! written as `Name:path`, one per line, and read back by controller name.
use vstd::prelude::*;

use crate::decimal::{
    decimal, is_digit, lemma_decimal_round_trip, parse_decimal, parse_u64, to_decimal,
};
use crate::route_scan::{capture_group, regex_capture};
use crate::text::{
    contains_text, is_white_space, lemma_split_join_lines, lemma_text_lines_free, find_from, first_occurrence_from, has_infix, has_prefix, lemma_split_on_free,
    lemma_split_on_new_piece, lemma_split_on_nonempty, lemma_split_on_push, lemma_split_on_stable, occurs_at,
    second_piece, split_on, starts_with, strip_cr, text_lines, join_lines, after_first, trim_end,
    trimmed_end,
};

verus! {

/// Matches a struct declaration and captures the struct's name.
pub const CONTROLLER_PATTERN: &'static str = r"struct\s+([A-Za-z_]\w*)";

/// A controller found in a source file: its struct name and the file's path.
pub struct ControllerStructure {
    pub name: String,
    pub path: String,
}

/// A line that ends the search for a controller's struct: empty, or starting
/// with `}`.
pub open spec fn ends_declaration(line: Seq<char>) -> bool {
    line.len() == 0 || line[0] == '}'
}

/// The outcome of scanning `lines` from index `i` outside a controller
/// attribute: `Some(Some(name))` for the first controller struct found,
/// `Some(None)` when there is none, `None` when the lines end inside a
/// controller attribute's declaration or a struct match has no name.
pub open spec fn scan_controller(lines: Seq<Seq<char>>, i: int) -> Option<Option<Seq<char>>>
    decreases lines.len() - i,
{
    if i < 0 || i >= lines.len() {
        Some(None)
    } else if !has_prefix(lines[i], "#[controller"@) {
        scan_controller(lines, i + 1)
    } else {
        scan_declaration(lines, i + 1)
    }
}

/// The outcome of scanning `lines` from index `i` inside a controller
/// attribute's declaration, looking for its struct name.
pub open spec fn scan_declaration(lines: Seq<Seq<char>>, i: int) -> Option<Option<Seq<char>>>
    decreases lines.len() - i,
{
    if i < 0 || i >= lines.len() {
        None
    } else if ends_declaration(lines[i]) {
        scan_controller(lines, i + 1)
    } else if regex_capture(CONTROLLER_PATTERN@, lines[i], 0) is None {
        scan_declaration(lines, i + 1)
    } else {
        match regex_capture(CONTROLLER_PATTERN@, lines[i], 1) {
            Some(name) => Some(Some(name)),
            None => None,
        }
    }
}

/// `line` begins with the twelve characters `#[controller`.
pub open spec fn opens_controller(line: Seq<char>) -> bool {
    line.len() >= 12 && line.subrange(0, 12) == seq!['#', '[', 'c', 'o', 'n', 't', 'r', 'o', 'l', 'l', 'e', 'r']
}

/// Outside a declaration, only a line that begins with `#[controller` opens
/// one: any other line, such as a commented-out attribute or struct, is passed
/// over and leaves the scan as it is from the next line.
pub proof fn law_other_lines_do_not_open(lines: Seq<Seq<char>>, i: int)
    requires
        0 <= i < lines.len(),
        !opens_controller(lines[i]),
    ensures
        scan_controller(lines, i) == scan_controller(lines, i + 1),
{
    reveal_strlit("#[controller");
    assert(seq!['#', '[', 'c', 'o', 'n', 't', 'r', 'o', 'l', 'l', 'e', 'r'] =~= "#[controller"@);
}

/// A line that begins with `#[controller` opens a declaration: the scan goes
/// on looking for its struct from the next line.
pub proof fn law_controller_attribute_opens(lines: Seq<Seq<char>>, i: int)
    requires
        0 <= i < lines.len(),
        opens_controller(lines[i]),
    ensures
        scan_controller(lines, i) == scan_declaration(lines, i + 1),
{
    reveal_strlit("#[controller");
    assert(seq!['#', '[', 'c', 'o', 'n', 't', 'r', 'o', 'l', 'l', 'e', 'r'] =~= "#[controller"@);
    assert(has_prefix(lines[i], "#[controller"@));
}

/// Lines that open no declaration before a controller's attribute do not
/// change what the scan finds: the scan of `skipped + rest` is the scan of
/// `rest`.
pub proof fn law_leading_lines_do_not_matter(skipped: Seq<Seq<char>>, rest: Seq<Seq<char>>)
    requires
        forall|k: int| 0 <= k < skipped.len() ==> !opens_controller(#[trigger] skipped[k]),
    ensures
        scan_controller(skipped + rest, 0) == scan_controller(rest, 0),
    decreases skipped.len(),
{
    if skipped.len() > 0 {
        let all = skipped + rest;
        law_other_lines_do_not_open(all, 0);
        assert(all[0] == skipped[0]);
        let tail = skipped.drop_first();
        assert forall|k: int| 0 <= k < tail.len() implies !opens_controller(#[trigger] tail[k]) by {
            assert(tail[k] == skipped[k + 1]);
        }
        law_leading_lines_do_not_matter(tail, rest);
        assert(all.skip(1) =~= tail + rest);
        lemma_scan_controller_shift(all, tail + rest, 1);
    } else {
        assert(skipped + rest =~= rest);
    }
}

/// Scanning from index `d` on is scanning the lines with the first `d` dropped.
proof fn lemma_scan_controller_shift(all: Seq<Seq<char>>, tail: Seq<Seq<char>>, d: int)
    requires
        0 <= d <= all.len(),
        tail == all.skip(d),
    ensures
        scan_controller(all, d) == scan_controller(tail, 0),
{
    lemma_scan_shift_from(all, tail, d, 0);
}

/// Scanning `all` from `d + j` is scanning `all.skip(d)` from `j`, both outside
/// and inside a declaration.
proof fn lemma_scan_shift_from(all: Seq<Seq<char>>, tail: Seq<Seq<char>>, d: int, j: int)
    requires
        0 <= d <= all.len(),
        tail == all.skip(d),
        0 <= j,
    ensures
        scan_controller(all, d + j) == scan_controller(tail, j),
        scan_declaration(all, d + j) == scan_declaration(tail, j),
    decreases tail.len() - j,
{
    if j < tail.len() {
        assert(all[d + j] == tail[j]);
        lemma_scan_shift_from(all, tail, d, j + 1);
        assert(d + j + 1 == d + (j + 1));
    }
}

/// Whether a line ends a declaration.
fn is_declaration_end(line: &str) -> (r: bool)
    ensures
        r == ends_declaration(line@),
{
    if line.unicode_len() == 0 {
        true
    } else {
        line.get_char(0) == '}'
    }
}

/// Scans a source file's lines for the first struct that follows a
/// `#[controller` attribute, and pairs its name with the file's `path`.
/// `None` when the file declares no controller.
pub fn find_controller(lines: &Vec<String>, path: &str) -> (r: Option<ControllerStructure>)
    requires
        scan_controller(crate::route_scan::lines_view(lines@), 0) is Some,
    ensures
        match r {
            Some(c) => scan_controller(crate::route_scan::lines_view(lines@), 0) == Some(Some(c.name@))
                && c.path@ == path@,
            None => scan_controller(crate::route_scan::lines_view(lines@), 0) == Some(None::<Seq<char>>),
        },
{
    match scan_controller_lines(lines).unwrap() {
        Some(name) => Some(ControllerStructure { name, path: path.to_owned() }),
        None => None,
    }
}

/// `find_controller` where the scan can complete; `None` where the lines end
/// inside a controller's declaration, or a struct match has no name.
pub fn try_find_controller(lines: &Vec<String>, path: &str) -> (r: Option<Option<ControllerStructure>>)
    ensures
        match r {
            Some(Some(c)) => scan_controller(crate::route_scan::lines_view(lines@), 0) == Some(Some(c.name@))
                && c.path@ == path@,
            Some(None) => scan_controller(crate::route_scan::lines_view(lines@), 0) == Some(None::<Seq<char>>),
            None => scan_controller(crate::route_scan::lines_view(lines@), 0) is None,
        },
{
    match scan_controller_lines(lines) {
        Some(_) => Some(find_controller(lines, path)),
        None => None,
    }
}

/// Scans the lines for the first controller's struct name.
fn scan_controller_lines(lines: &Vec<String>) -> (r: Option<Option<String>>)
    ensures
        match r {
            Some(Some(name)) => scan_controller(crate::route_scan::lines_view(lines@), 0) == Some(Some(name@)),
            Some(None) => scan_controller(crate::route_scan::lines_view(lines@), 0) == Some(None::<Seq<char>>),
            None => scan_controller(crate::route_scan::lines_view(lines@), 0) is None,
        },
{
    let ghost ls = crate::route_scan::lines_view(lines@);
    let n = lines.len();
    let mut inside = false;
    let mut i: usize = 0;
    while i < n
        invariant
            n == lines@.len(),
            ls == crate::route_scan::lines_view(lines@),
            ls.len() == n,
            i <= n,
            scan_controller(ls, 0) == if inside {
                scan_declaration(ls, i as int)
            } else {
                scan_controller(ls, i as int)
            },
        decreases n - i,
    {
        let line = lines[i].as_str();
        assert(ls[i as int] == line@);
        if !inside {
            if starts_with(line, "#[controller") {
                inside = true;
            }
        } else if is_declaration_end(line) {
            inside = false;
        } else {
            match capture_group(CONTROLLER_PATTERN, line, 0) {
                None => {},
                Some(_) => {
                    return match capture_group(CONTROLLER_PATTERN, line, 1) {
                        Some(name) => Some(Some(name)),
                        None => None,
                    };
                },
            }
        }
        i = i + 1;
    }
    if inside {
        None
    } else {
        Some(None)
    }
}

/// The routes index line for a controller: `name:path`.
pub open spec fn index_entry(name: Seq<char>, path: Seq<char>) -> Seq<char> {
    name + seq![':'] + path
}

/// The routes index line for a controller, `name:path`.
pub fn routes_index_entry(name: &str, path: &str) -> (r: String)
    ensures
        r@ == index_entry(name@, path@),
{
    proof {
        reveal_strlit(":");
    }
    let mut s = name.to_owned();
    s.append(":");
    s.append(path);
    s
}

/// No two controllers share a name.
pub open spec fn distinct_names(controllers: Seq<ControllerStructure>) -> bool {
    forall|i: int, j: int|
        0 <= i < j < controllers.len() ==> (#[trigger] controllers[i]).name@ != (#[trigger] controllers[j]).name@
}

/// The first controller whose name an earlier controller already has; `None`
/// when all names are distinct.
pub fn duplicate_controller(controllers: &Vec<ControllerStructure>) -> (r: Option<usize>)
    ensures
        match r {
            Some(j) => j < controllers@.len() && distinct_names(controllers@.take(j as int))
                && exists|i: int| 0 <= i < j && (#[trigger] controllers@[i]).name@ == controllers@[j as int].name@,
            None => distinct_names(controllers@),
        },
{
    let n = controllers.len();
    let mut j: usize = 0;
    while j < n
        invariant
            n == controllers@.len(),
            j <= n,
            distinct_names(controllers@.take(j as int)),
        decreases n - j,
    {
        let mut i: usize = 0;
        while i < j
            invariant
                n == controllers@.len(),
                i <= j < n,
                distinct_names(controllers@.take(j as int)),
                forall|k: int| 0 <= k < i ==> (#[trigger] controllers@[k]).name@ != controllers@[j as int].name@,
            decreases j - i,
        {
            if controllers[i].name == controllers[j].name {
                assert(controllers@[i as int].name@ == controllers@[j as int].name@);
                return Some(j);
            }
            i = i + 1;
        }
        proof {
            let t = controllers@.take(j + 1);
            assert forall|a: int, b: int| 0 <= a < b < t.len() implies (#[trigger] t[a]).name@ != (#[trigger] t[b]).name@ by {
                assert(t[a] == controllers@[a]);
                assert(t[b] == controllers@[b]);
                if b < j {
                    assert(controllers@.take(j as int)[a] == controllers@[a]);
                    assert(controllers@.take(j as int)[b] == controllers@[b]);
                }
            }
        }
        j = j + 1;
    }
    proof {
        assert(controllers@.take(n as int) =~= controllers@);
    }
    None
}

/// The routes index entries of the controllers, in order.
pub fn index_entries(controllers: &Vec<ControllerStructure>) -> (r: Vec<String>)
    ensures
        r@.len() == controllers@.len(),
        forall|i: int| 0 <= i < controllers@.len() ==> (#[trigger] r@[i])@ == index_entry(
            controllers@[i].name@,
            controllers@[i].path@,
        ),
{
    let mut out: Vec<String> = Vec::new();
    let n = controllers.len();
    let mut i: usize = 0;
    while i < n
        invariant
            n == controllers@.len(),
            i <= n,
            out@.len() == i,
            forall|k: int| 0 <= k < i ==> (#[trigger] out@[k])@ == index_entry(
                controllers@[k].name@,
                controllers@[k].path@,
            ),
        decreases n - i,
    {
        out.push(routes_index_entry(controllers[i].name.as_str(), controllers[i].path.as_str()));
        i = i + 1;
    }
    out
}

/// Whether a file name marks a controller source file: it contains
/// `controller.rs`.
pub fn is_controller(file_name: &str) -> (r: bool)
    ensures
        r == has_infix(file_name@, "controller.rs"@),
{
    contains_text(file_name, "controller.rs")
}

/// An index entry written for a controller is found again under the
/// controller's name, and reads back the path it was written with, as long as
/// neither holds a `:`.
pub proof fn law_index_entry_round_trip(name: Seq<char>, path: Seq<char>)
    requires
        !name.contains(':'),
        !path.contains(':'),
    ensures
        has_prefix(index_entry(name, path), name + seq![':']),
        split_on(index_entry(name, path), ':').len() >= 2,
        split_on(index_entry(name, path), ':')[1] == path,
{
    lemma_split_on_new_piece(name, path, ':');
    lemma_split_on_free(name, ':');
    assert(index_entry(name, path).subrange(0, name.len() + 1int) =~= name + seq![':']);
}

/// The timestamp that a routes index header line holds: the text after
/// `last_write:` (up to a further `last_write:`), without trailing white
/// space, read as a `u64`; `None` when there is no `last_write:` or the text is
/// not a `u64`.
pub open spec fn last_write_of(line: Seq<char>) -> Option<u64> {
    match second_piece(line, "last_write:"@) {
        None => None,
        Some(text) => parse_u64(trim_end(text)),
    }
}

/// The header line of the routes index for a timestamp: `last_write:<ts>`.
pub open spec fn last_write_line(ts: u64) -> Seq<char> {
    "last_write:"@ + decimal(ts as nat)
}

/// Reads the timestamp of the routes index header line `line`.
pub fn parse_last_write(line: &str) -> (r: Option<u64>)
    ensures
        r == last_write_of(line@),
{
    proof {
        reveal_strlit("last_write:");
    }
    let pat = "last_write:";
    let n = line.unicode_len();
    let k = match find_from(line, pat, 0) {
        Some(k) => k,
        None => return None,
    };
    let a = k + pat.unicode_len();
    let end = match find_from(line, pat, a) {
        Some(m) => m,
        None => n,
    };
    let e = trimmed_end(line, a, end);
    parse_decimal(line.substring_char(a, e))
}

/// The header line of the routes index for a timestamp, `last_write:<ts>`.
pub fn last_write_header(ts: u64) -> (r: String)
    ensures
        r@ == last_write_line(ts),
{
    let mut s = String::from_str("last_write:");
    let digits = to_decimal(ts);
    s.append(digits.as_str());
    s
}

/// The routes index content with its first line replaced by the header for
/// `ts`: the lines of `content` after the first, under `last_write:<ts>`,
/// joined with `\n`.
pub open spec fn with_last_write(content: Seq<char>, ts: u64) -> Seq<char> {
    join_lines(seq![last_write_line(ts)] + after_first(text_lines(content)))
}

/// Replaces the header line of the routes index content with the header for
/// `ts`, keeping the other lines, joined with `\n`.
pub fn replace_last_write(content: &str, ts: u64) -> (r: String)
    requires
        content@.len() > 0,
    ensures
        r@ == with_last_write(content@, ts),
{
    let ghost header = last_write_line(ts);
    let mut out = last_write_header(ts);
    let n = content.unicode_len();
    let mut start: usize = 0;
    let mut seen: usize = 0;
    let mut i: usize = 0;
    proof {
        assert(content@.take(0) =~= Seq::<char>::empty());
        assert(split_on(content@.take(0), '\n').drop_last() =~= Seq::<Seq<char>>::empty());
        assert(split_on(content@.take(0), '\n').drop_last().map_values(|l: Seq<char>| strip_cr(l))
            =~= Seq::<Seq<char>>::empty());
        assert(seq![header] + after_first(Seq::<Seq<char>>::empty()) =~= seq![header]);
    }
    while i < n
        invariant
            n == content@.len(),
            start <= i <= n,
            header == last_write_line(ts),
            split_on(content@.take(i as int), '\n').len() == seen + 1,
            split_on(content@.take(i as int), '\n').last() == content@.subrange(start as int, i as int),
            seen <= i,
            out@ == join_lines(seq![header] + after_first(
                split_on(content@.take(i as int), '\n').drop_last().map_values(|l: Seq<char>| strip_cr(l)),
            )),
        decreases n - i,
    {
        let c = content.get_char(i);
        let ghost pieces = split_on(content@.take(i as int), '\n');
        let ghost ended = pieces.drop_last().map_values(|l: Seq<char>| strip_cr(l));
        proof {
            assert(content@.take(i + 1) =~= content@.take(i as int).push(c));
            lemma_split_on_push(content@.take(i as int), c, '\n');
        }
        if c == '\n' {
            let mut end = i;
            if i > start && content.get_char(i - 1) == '\r' {
                end = i - 1;
            }
            let ghost line = strip_cr(content@.subrange(start as int, i as int));
            proof {
                assert(content@.subrange(start as int, end as int) =~= line);
                let next = split_on(content@.take(i + 1), '\n');
                assert(next.drop_last() =~= pieces);
                assert(pieces =~= pieces.drop_last().push(pieces.last()));
                assert(next.drop_last().map_values(|l: Seq<char>| strip_cr(l)) =~= ended.push(line));
            }
            if seen >= 1 {
                let ghost before = out@;
                out.append("\n");
                out.append(content.substring_char(start, end));
                proof {
                    reveal_strlit("\n");
                    let all = seq![header] + after_first(ended.push(line));
                    assert(all =~= (seq![header] + after_first(ended)).push(line));
                    assert(all.drop_last() =~= seq![header] + after_first(ended));
                    assert(all.len() >= 2);
                    assert(join_lines(all) == join_lines(all.drop_last()) + seq!['\n'] + all.last());
                    assert(out@ =~= before + seq!['\n'] + line);
                }
            } else {
                proof {
                    assert(ended.len() == 0);
                    assert(after_first(ended.push(line)) =~= Seq::<Seq<char>>::empty());
                    assert(after_first(ended) =~= Seq::<Seq<char>>::empty());
                }
            }
            seen = seen + 1;
            start = i + 1;
            proof {
                assert(content@.subrange(start as int, i + 1) =~= Seq::<char>::empty());
            }
        } else {
            proof {
                let next = split_on(content@.take(i + 1), '\n');
                assert(next.drop_last() =~= pieces.drop_last());
                assert(content@.subrange(start as int, i + 1) =~= content@.subrange(start as int, i as int).push(c));
            }
        }
        i = i + 1;
    }
    let ghost pieces = split_on(content@, '\n');
    let ghost ended = pieces.drop_last().map_values(|l: Seq<char>| strip_cr(l));
    proof {
        assert(content@.take(n as int) =~= content@);
    }
    if start < n {
        if seen >= 1 {
            let ghost before = out@;
            out.append("\n");
            out.append(content.substring_char(start, n));
            proof {
                reveal_strlit("\n");
                let all = seq![header] + after_first(ended.push(pieces.last()));
                assert(all =~= (seq![header] + after_first(ended)).push(pieces.last()));
                assert(all.drop_last() =~= seq![header] + after_first(ended));
                assert(join_lines(all) == join_lines(all.drop_last()) + seq!['\n'] + all.last());
                assert(out@ =~= before + seq!['\n'] + pieces.last());
            }
        } else {
            proof {
                assert(ended.len() == 0);
                assert(after_first(ended.push(pieces.last())) =~= Seq::<Seq<char>>::empty());
                assert(after_first(ended) =~= Seq::<Seq<char>>::empty());
            }
        }
    } else {
        proof {
            assert(pieces.last().len() == 0);
        }
    }
    out
}

/// Joining a first line with more lines puts a line break after it.
proof fn lemma_join_after_first(first: Seq<char>, rest: Seq<Seq<char>>)
    ensures
        join_lines(seq![first] + rest) == if rest.len() == 0 {
            first
        } else {
            first + seq!['\n'] + join_lines(rest)
        },
    decreases rest.len(),
{
    let all = seq![first] + rest;
    if rest.len() == 0 {
        assert(all =~= seq![first]);
    } else {
        let init = rest.drop_last();
        lemma_join_after_first(first, init);
        assert(all.drop_last() =~= seq![first] + init);
        assert(all.last() == rest.last());
        if init.len() == 0 {
            assert(rest =~= seq![rest.last()]);
            assert(join_lines(rest) == rest[0]);
        } else {
            assert(join_lines(rest) == join_lines(init) + seq!['\n'] + rest.last());
        }
        assert(join_lines(all) =~= first + seq!['\n'] + join_lines(rest));
    }
}

/// After the header is replaced, the first line of the content reads back as
/// the new timestamp.
pub proof fn law_replaced_header_reads_back(content: Seq<char>, ts: u64)
    ensures
        text_lines(with_last_write(content, ts)).len() >= 1,
        last_write_of(text_lines(with_last_write(content, ts))[0]) == Some(ts),
{
    let header = last_write_line(ts);
    let rest = after_first(text_lines(content));
    lemma_join_after_first(header, rest);
    law_last_write_round_trip(ts);
    lemma_decimal_round_trip(ts as nat);
    reveal_strlit("last_write:");
    let digits = decimal(ts as nat);
    assert(!header.contains('\n')) by {
        if header.contains('\n') {
            let j = choose|j: int| 0 <= j < header.len() && header[j] == '\n';
            if j < 11 {
                assert(header[j] == "last_write:"@[j]);
            } else {
                assert(header[j] == digits[j - 11]);
                assert(is_digit(digits[j - 11]));
            }
        }
    }
    assert(header.last() == digits[digits.len() - 1]);
    assert(is_digit(digits[digits.len() - 1]));
    assert(strip_cr(header) == header);
    lemma_split_on_free(header, '\n');
    let out = with_last_write(content, ts);
    if rest.len() == 0 {
        assert(out == header);
        assert(split_on(out, '\n').last() == header);
        assert(split_on(out, '\n').drop_last() =~= Seq::<Seq<char>>::empty());
        assert(text_lines(out) =~= seq![header]);
    } else {
        let tail = join_lines(rest);
        lemma_split_on_push(header, '\n', '\n');
        assert(header + seq!['\n'] + tail =~= header.push('\n') + tail);
        lemma_split_on_stable(header.push('\n'), tail, '\n', 0);
        let pieces = split_on(out, '\n');
        assert(pieces.len() >= 2);
        assert(pieces[0] == header);
        assert(pieces.drop_last()[0] == header);
        assert(text_lines(out)[0] == strip_cr(header));
    }
}

/// Replacing the header keeps every other line, as long as no line between
/// the first and the last ends in `\r` (that `\r` would be taken as part of a
/// `\r\n` line ending when the content is read again) and the last line is
/// not empty (an empty last line is not written back).
pub proof fn law_replace_keeps_other_lines(content: Seq<char>, ts: u64)
    requires
        text_lines(content).len() >= 1,
        forall|k: int| 1 <= k < text_lines(content).len() - 1 ==> (#[trigger] text_lines(content)[k]).last() != '\r'
            || text_lines(content)[k].len() == 0,
        text_lines(content).len() == 1 || text_lines(content).last().len() > 0,
    ensures
        text_lines(with_last_write(content, ts)) == seq![last_write_line(ts)] + text_lines(content).drop_first(),
{
    let ls = text_lines(content);
    let header = last_write_line(ts);
    let all = seq![header] + ls.drop_first();
    assert(after_first(ls) == ls.drop_first());
    lemma_text_lines_free(content);
    lemma_decimal_round_trip(ts as nat);
    reveal_strlit("last_write:");
    let digits = decimal(ts as nat);
    assert(!header.contains('\n')) by {
        if header.contains('\n') {
            let j = choose|j: int| 0 <= j < header.len() && header[j] == '\n';
            if j < 11 {
                assert(header[j] == "last_write:"@[j]);
            } else {
                assert(header[j] == digits[j - 11]);
                assert(is_digit(digits[j - 11]));
            }
        }
    }
    assert(header.last() == digits[digits.len() - 1]);
    assert(is_digit(digits[digits.len() - 1]));
    assert forall|k: int| 0 <= k < all.len() implies !(#[trigger] all[k]).contains('\n') by {
        if k > 0 {
            assert(all[k] == ls[k]);
        }
    }
    lemma_split_join_lines(all);
    let out = join_lines(all);
    assert(out == with_last_write(content, ts));
    let pieces = split_on(out, '\n');
    assert(pieces == all);
    assert(pieces.last().len() > 0) by {
        if ls.len() == 1 {
            assert(all =~= seq![header]);
        } else {
            assert(all.last() == ls.last());
        }
    }
    assert forall|k: int| 0 <= k < all.len() - 1 implies strip_cr(#[trigger] all[k]) == all[k] by {
        if k > 0 {
            assert(all[k] == ls[k]);
        }
    }
    assert(text_lines(out) =~= all);
}

/// No occurrence of `pat` starts at or after `i` when no character there is
/// the first character of `pat`.
proof fn lemma_no_occurrence_from(s: Seq<char>, pat: Seq<char>, i: int)
    requires
        pat.len() > 0,
        0 <= i,
        forall|j: int| i <= j < s.len() ==> s[j] != pat[0],
    ensures
        first_occurrence_from(s, pat, i) is None,
    decreases s.len() - i,
{
    if i < s.len() && i + pat.len() <= s.len() {
        assert(s.subrange(i, i + pat.len())[0] == s[i]);
        lemma_no_occurrence_from(s, pat, i + 1);
    }
}

/// The header line written for a timestamp reads back as that timestamp,
/// alone or followed by its line break.
pub proof fn law_last_write_round_trip(ts: u64)
    ensures
        last_write_of(last_write_line(ts)) == Some(ts),
        last_write_of(last_write_line(ts) + seq!['\n']) == Some(ts),
{
    reveal_strlit("last_write:");
    let pat = "last_write:"@;
    let digits = decimal(ts as nat);
    lemma_decimal_round_trip(ts as nat);
    assert(pat.len() == 11);
    assert(pat[0] == 'l');
    assert(!is_digit('l'));
    let lines = seq![last_write_line(ts), last_write_line(ts) + seq!['\n']];
    assert forall|w: int| 0 <= w < 2 implies last_write_of(#[trigger] lines[w]) == Some(ts) by {
        let line = lines[w];
        assert(line.subrange(0, 11) =~= pat);
        assert(occurs_at(line, pat, 0));
        assert(first_occurrence_from(line, pat, 0) == Some(0int));
        assert forall|j: int| 11 <= j < line.len() implies line[j] != pat[0] by {
            if j < 11 + digits.len() {
                assert(line[j] == digits[j - 11]);
                assert(is_digit(digits[j - 11]));
            } else {
                assert(line[j] == '\n');
            }
        }
        lemma_no_occurrence_from(line, pat, 11);
        let text = line.subrange(11, line.len() as int);
        assert(second_piece(line, pat) == Some(text));
        assert(digits.last() == digits[digits.len() - 1]);
        assert(is_digit(digits[digits.len() - 1]));
        if w == 0 {
            assert(text =~= digits);
        } else {
            assert(text.drop_last() =~= digits);
            assert(text.last() == '\n');
        }
        assert(!is_white_space(digits.last()));
        assert(trim_end(digits) == digits);
        assert(is_white_space('\n'));
        assert(trim_end(text) == digits);
        assert(is_digit(digits[0]));
        assert(digits[0] != '+');
    }
    assert(lines[0] == last_write_line(ts));
    assert(lines[1] == last_write_line(ts) + seq!['\n']);
}

} // verus!
