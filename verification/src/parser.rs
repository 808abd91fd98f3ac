//! Descriptor parsing: one INI-style descriptor text becomes an
//! [`Application`] record or a [`ParseError`].
//!
//! Only the section named `Desktop Entry` is consulted, and within it only
//! the attributes `Name`, `Exec`, `Comment`, `Categories`, `Keywords` and
//! `Terminal`. The first occurrence of an attribute in that section is the
//! one taken; every other attribute and section is ignored. `Terminal` is
//! interpreted by exact, case-sensitive equality against the literal `true`;
//! any other value yields `false`.

use vstd::prelude::*;
use vstd::string::StrSliceExecFns;
use vstd::string::StringExecFns;

use crate::text::find_ch;
use crate::text::find_in_range;
use crate::text::range_eq_lit;
use crate::text::spec_lines;
use crate::text::split_lines;
use crate::text::to_chars;

verus! {

/// One installed-application record.
#[derive(Debug, PartialEq, Eq)]
pub struct Application {
    pub name: String,
    pub exec_cmd: String,
    pub comment: Option<String>,
    pub categories: Option<String>,
    pub keywords: Option<String>,
    pub use_terminal: bool,
}

/// The mathematical value of an [`Application`].
#[verifier::ext_equal]
pub struct AppView {
    pub name: Seq<char>,
    pub exec_cmd: Seq<char>,
    pub comment: Option<Seq<char>>,
    pub categories: Option<Seq<char>>,
    pub keywords: Option<Seq<char>>,
    pub use_terminal: bool,
}

/// The value of an optional text.
pub open spec fn opt_view(o: Option<String>) -> Option<Seq<char>> {
    match o {
        Some(s) => Some(s@),
        None => None,
    }
}

impl View for Application {
    type V = AppView;

    open spec fn view(&self) -> AppView {
        AppView {
            name: self.name@,
            exec_cmd: self.exec_cmd@,
            comment: opt_view(self.comment),
            categories: opt_view(self.categories),
            keywords: opt_view(self.keywords),
            use_terminal: self.use_terminal,
        }
    }
}

/// Why a descriptor fails to parse.
#[derive(Debug, Clone, Copy, PartialEq, Eq, Structural)]
pub enum ParseError {
    /// A line is neither blank, nor a comment, nor a section header, nor a
    /// key/value attribute.
    MalformedLine,
    /// The `Desktop Entry` section has no `Exec` attribute.
    MissingExec,
    /// The `Desktop Entry` section has no `Name` attribute.
    MissingName,
}

/// A blank line.
pub open spec fn is_blank(l: Seq<char>) -> bool {
    l.len() == 0
}

/// A comment line.
pub open spec fn is_comment(l: Seq<char>) -> bool {
    l.len() > 0 && l[0] == '#'
}

/// A section header line, `[` name `]`.
pub open spec fn is_header(l: Seq<char>) -> bool {
    l.len() >= 2 && l[0] == '[' && l[l.len() - 1] == ']'
}

/// The name between the brackets of a header line.
pub open spec fn header_name(l: Seq<char>) -> Seq<char> {
    l.subrange(1, l.len() - 1)
}

/// A key/value attribute line: any other line with an `=`. The key is
/// everything before the first `=`, the value everything after it.
pub open spec fn is_attr(l: Seq<char>) -> bool {
    !is_comment(l) && !is_header(l) && find_ch(l, '=') < l.len()
}

/// The key of an attribute line.
pub open spec fn attr_key(l: Seq<char>) -> Seq<char> {
    l.subrange(0, find_ch(l, '='))
}

/// The value of an attribute line.
pub open spec fn attr_value(l: Seq<char>) -> Seq<char> {
    l.subrange(find_ch(l, '=') + 1, l.len() as int)
}

/// A line the grammar accepts.
pub open spec fn line_ok(l: Seq<char>) -> bool {
    is_blank(l) || is_comment(l) || is_header(l) || find_ch(l, '=') < l.len()
}

/// Every line of `s` is acceptable.
pub open spec fn all_lines_ok(s: Seq<char>) -> bool {
    forall|i: int| 0 <= i < spec_lines(s).len() ==> line_ok(#[trigger] spec_lines(s)[i])
}

/// The value of the first occurrence of `key` inside a `Desktop Entry`
/// section, scanning `lines` from position `i` with `in_entry` saying
/// whether position `i` currently lies in such a section.
pub open spec fn attr_from(lines: Seq<Seq<char>>, i: int, in_entry: bool, key: Seq<char>) -> Option<
    Seq<char>,
>
    decreases lines.len() - i,
{
    if i < 0 || i >= lines.len() {
        None
    } else {
        let l = lines[i];
        if is_header(l) {
            attr_from(lines, i + 1, header_name(l) == "Desktop Entry"@, key)
        } else if in_entry && is_attr(l) && attr_key(l) == key {
            Some(attr_value(l))
        } else {
            attr_from(lines, i + 1, in_entry, key)
        }
    }
}

/// The value of the first occurrence of `key` in the `Desktop Entry` section
/// of the text `s`, if any.
pub open spec fn spec_attr(s: Seq<char>, key: Seq<char>) -> Option<Seq<char>> {
    attr_from(spec_lines(s), 0, false, key)
}

/// What parsing the descriptor text `s` yields: the record built verbatim
/// from the `Desktop Entry` attributes, or the first applicable error.
pub open spec fn spec_parse(s: Seq<char>) -> Result<AppView, ParseError> {
    if !all_lines_ok(s) {
        Err(ParseError::MalformedLine)
    } else if spec_attr(s, "Exec"@) is None {
        Err(ParseError::MissingExec)
    } else if spec_attr(s, "Name"@) is None {
        Err(ParseError::MissingName)
    } else {
        Ok(
            AppView {
                name: spec_attr(s, "Name"@)->Some_0,
                exec_cmd: spec_attr(s, "Exec"@)->Some_0,
                comment: spec_attr(s, "Comment"@),
                categories: spec_attr(s, "Categories"@),
                keywords: spec_attr(s, "Keywords"@),
                use_terminal: spec_attr(s, "Terminal"@) == Some("true"@),
            },
        )
    }
}

/// One unfolding of `attr_from` at a position that is skipped.
proof fn lemma_attr_from_skip(lines: Seq<Seq<char>>, i: int, in_entry: bool, key: Seq<char>)
    requires
        0 <= i < lines.len(),
        !is_header(lines[i]),
        !(in_entry && is_attr(lines[i]) && attr_key(lines[i]) == key),
    ensures
        attr_from(lines, i, in_entry, key) == attr_from(lines, i + 1, in_entry, key),
{
}

/// The scanning state of one attribute slot: while nothing is found the
/// lookup over the whole text equals the lookup over the rest, and once a
/// value is found it is the looked-up value.
spec fn scan_ok(
    slot: Option<String>,
    lines: Seq<Seq<char>>,
    i: int,
    in_entry: bool,
    key: Seq<char>,
) -> bool {
    match slot {
        None => attr_from(lines, 0, false, key) == attr_from(lines, i, in_entry, key),
        Some(v) => attr_from(lines, 0, false, key) == Some(v@),
    }
}

/// A blank or comment line changes no scanning state.
proof fn lemma_scan_skip(
    slot: Option<String>,
    lines: Seq<Seq<char>>,
    i: int,
    in_entry: bool,
    key: Seq<char>,
)
    requires
        0 <= i < lines.len(),
        !is_header(lines[i]),
        !is_attr(lines[i]),
        scan_ok(slot, lines, i, in_entry, key),
    ensures
        scan_ok(slot, lines, i + 1, in_entry, key),
{
    lemma_attr_from_skip(lines, i, in_entry, key);
}

/// A header line only switches whether the scan is inside the Desktop Entry
/// section.
proof fn lemma_scan_header(
    slot: Option<String>,
    lines: Seq<Seq<char>>,
    i: int,
    in_entry: bool,
    now_in: bool,
    key: Seq<char>,
)
    requires
        0 <= i < lines.len(),
        is_header(lines[i]),
        now_in == (header_name(lines[i]) == "Desktop Entry"@),
        scan_ok(slot, lines, i, in_entry, key),
    ensures
        scan_ok(slot, lines, i + 1, now_in, key),
{
}

/// An attribute line fills the slot of its key when the scan is inside the
/// Desktop Entry section and the slot is still empty, and changes nothing
/// else.
proof fn lemma_scan_attr(
    before: Option<String>,
    after: Option<String>,
    key_is: bool,
    lines: Seq<Seq<char>>,
    i: int,
    in_entry: bool,
    key: Seq<char>,
)
    requires
        0 <= i < lines.len(),
        is_attr(lines[i]),
        key_is == (attr_key(lines[i]) == key),
        scan_ok(before, lines, i, in_entry, key),
        if in_entry && key_is && before is None {
            after is Some && (after->Some_0)@ == attr_value(lines[i])
        } else {
            after == before
        },
    ensures
        scan_ok(after, lines, i + 1, in_entry, key),
{
    if in_entry && key_is && before is None {
        assert(attr_from(lines, i, in_entry, key) == Some(attr_value(lines[i])));
    } else if !(in_entry && key_is) {
        lemma_attr_from_skip(lines, i, in_entry, key);
    }
}

/// At the end of the text an empty slot means the attribute is absent, and a
/// filled slot holds the looked-up value.
proof fn lemma_scan_done(
    slot: Option<String>,
    lines: Seq<Seq<char>>,
    i: int,
    in_entry: bool,
    key: Seq<char>,
)
    requires
        i == lines.len(),
        scan_ok(slot, lines, i, in_entry, key),
    ensures
        slot is None ==> attr_from(lines, 0, false, key) is None,
        slot is Some ==> attr_from(lines, 0, false, key) == Some((slot->Some_0)@),
{
    assert(attr_from(lines, i, in_entry, key) is None);
}

/// Parses one descriptor text. Yields exactly what [`spec_parse`] says: a
/// record whose fields are the `Desktop Entry` attributes verbatim, absent
/// optional attributes staying absent, or the first applicable error.
pub fn parse(src: &str) -> (r: Result<Application, ParseError>)
    ensures
        (r is Ok) == (spec_parse(src@) is Ok),
        r is Ok ==> (r->Ok_0)@ == spec_parse(src@)->Ok_0,
        r is Err ==> r->Err_0 == spec_parse(src@)->Err_0,
{
    let cs = to_chars(src);
    let bounds = split_lines(&cs);
    let ghost ls = spec_lines(src@);
    let n_lines = bounds.len();
    let mut in_entry = false;
    let mut name: Option<String> = None;
    let mut exec_cmd: Option<String> = None;
    let mut comment: Option<String> = None;
    let mut categories: Option<String> = None;
    let mut keywords: Option<String> = None;
    let mut terminal: Option<String> = None;
    let mut k: usize = 0;
    while k < n_lines
        invariant
            cs@ == src@,
            ls == spec_lines(src@),
            n_lines == bounds@.len(),
            n_lines == ls.len(),
            k <= n_lines,
            forall|t: int| 0 <= t < n_lines ==> (#[trigger] bounds@[t]).0 <= bounds@[t].1
                <= cs@.len(),
            forall|t: int| 0 <= t < n_lines ==> #[trigger] ls[t] == cs@.subrange(
                bounds@[t].0 as int,
                bounds@[t].1 as int,
            ),
            forall|t: int| 0 <= t < k ==> line_ok(#[trigger] ls[t]),
            scan_ok(name, ls, k as int, in_entry, "Name"@),
            scan_ok(exec_cmd, ls, k as int, in_entry, "Exec"@),
            scan_ok(comment, ls, k as int, in_entry, "Comment"@),
            scan_ok(categories, ls, k as int, in_entry, "Categories"@),
            scan_ok(keywords, ls, k as int, in_entry, "Keywords"@),
            scan_ok(terminal, ls, k as int, in_entry, "Terminal"@),
        decreases n_lines - k,
    {
        let bound = bounds[k];
        let a = bound.0;
        let b = bound.1;
        let ghost l = ls[k as int];
        proof {
            assert(l == cs@.subrange(a as int, b as int));
            assert(l.len() == b - a);
        }
        if b == a {
            // Blank line.
            proof {
                assert(find_ch(l, '=') == 0);
                assert(!is_header(l));
                assert(!is_attr(l));
                lemma_scan_skip(name, ls, k as int, in_entry, "Name"@);
                lemma_scan_skip(exec_cmd, ls, k as int, in_entry, "Exec"@);
                lemma_scan_skip(comment, ls, k as int, in_entry, "Comment"@);
                lemma_scan_skip(categories, ls, k as int, in_entry, "Categories"@);
                lemma_scan_skip(keywords, ls, k as int, in_entry, "Keywords"@);
                lemma_scan_skip(terminal, ls, k as int, in_entry, "Terminal"@);
            }
        } else if cs[a] == '#' {
            // Comment line.
            proof {
                assert(l[0] == '#');
                assert(!is_header(l));
                assert(!is_attr(l));
                lemma_scan_skip(name, ls, k as int, in_entry, "Name"@);
                lemma_scan_skip(exec_cmd, ls, k as int, in_entry, "Exec"@);
                lemma_scan_skip(comment, ls, k as int, in_entry, "Comment"@);
                lemma_scan_skip(categories, ls, k as int, in_entry, "Categories"@);
                lemma_scan_skip(keywords, ls, k as int, in_entry, "Keywords"@);
                lemma_scan_skip(terminal, ls, k as int, in_entry, "Terminal"@);
            }
        } else if b - a >= 2 && cs[a] == '[' && cs[b - 1] == ']' {
            // Section header: entering or leaving the Desktop Entry section.
            let now_in = range_eq_lit(&cs, a + 1, b - 1, "Desktop Entry");
            proof {
                assert(l[0] == '[');
                assert(l[l.len() - 1] == ']');
                assert(is_header(l));
                assert(header_name(l) =~= cs@.subrange(a + 1, b - 1));
                assert(now_in == (header_name(l) == "Desktop Entry"@));
                lemma_scan_header(name, ls, k as int, in_entry, now_in, "Name"@);
                lemma_scan_header(exec_cmd, ls, k as int, in_entry, now_in, "Exec"@);
                lemma_scan_header(comment, ls, k as int, in_entry, now_in, "Comment"@);
                lemma_scan_header(categories, ls, k as int, in_entry, now_in, "Categories"@);
                lemma_scan_header(keywords, ls, k as int, in_entry, now_in, "Keywords"@);
                lemma_scan_header(terminal, ls, k as int, in_entry, now_in, "Terminal"@);
            }
            in_entry = now_in;
        } else {
            let m = find_in_range(&cs, a, b, '=');
            proof {
                assert(cs@.subrange(a as int, b as int) == l);
                assert(find_ch(l, '=') == m - a);
                assert(l[0] != '#');
                assert(!is_comment(l));
                assert(!is_header(l));
            }
            if m == b {
                // No '=': the line fits no form of the grammar.
                proof {
                    assert(!line_ok(l));
                    assert(!all_lines_ok(src@));
                }
                return Err(ParseError::MalformedLine);
            }
            proof {
                assert(is_attr(l));
                assert(attr_key(l) =~= cs@.subrange(a as int, m as int));
                assert(attr_value(l) =~= cs@.subrange(m + 1, b as int));
            }
            let key_is_name = range_eq_lit(&cs, a, m, "Name");
            let key_is_exec = range_eq_lit(&cs, a, m, "Exec");
            let key_is_comment = range_eq_lit(&cs, a, m, "Comment");
            let key_is_categories = range_eq_lit(&cs, a, m, "Categories");
            let key_is_keywords = range_eq_lit(&cs, a, m, "Keywords");
            let key_is_terminal = range_eq_lit(&cs, a, m, "Terminal");
            let ghost name0 = name;
            let ghost exec0 = exec_cmd;
            let ghost comment0 = comment;
            let ghost categories0 = categories;
            let ghost keywords0 = keywords;
            let ghost terminal0 = terminal;
            if in_entry {
                if key_is_name && name.is_none() {
                    name = Some(String::from_str(src.substring_char(m + 1, b)));
                }
                if key_is_exec && exec_cmd.is_none() {
                    exec_cmd = Some(String::from_str(src.substring_char(m + 1, b)));
                }
                if key_is_comment && comment.is_none() {
                    comment = Some(String::from_str(src.substring_char(m + 1, b)));
                }
                if key_is_categories && categories.is_none() {
                    categories = Some(String::from_str(src.substring_char(m + 1, b)));
                }
                if key_is_keywords && keywords.is_none() {
                    keywords = Some(String::from_str(src.substring_char(m + 1, b)));
                }
                if key_is_terminal && terminal.is_none() {
                    terminal = Some(String::from_str(src.substring_char(m + 1, b)));
                }
            }
            proof {
                lemma_scan_attr(name0, name, key_is_name, ls, k as int, in_entry, "Name"@);
                lemma_scan_attr(exec0, exec_cmd, key_is_exec, ls, k as int, in_entry, "Exec"@);
                lemma_scan_attr(
                    comment0,
                    comment,
                    key_is_comment,
                    ls,
                    k as int,
                    in_entry,
                    "Comment"@,
                );
                lemma_scan_attr(
                    categories0,
                    categories,
                    key_is_categories,
                    ls,
                    k as int,
                    in_entry,
                    "Categories"@,
                );
                lemma_scan_attr(
                    keywords0,
                    keywords,
                    key_is_keywords,
                    ls,
                    k as int,
                    in_entry,
                    "Keywords"@,
                );
                lemma_scan_attr(
                    terminal0,
                    terminal,
                    key_is_terminal,
                    ls,
                    k as int,
                    in_entry,
                    "Terminal"@,
                );
            }
        }
        k = k + 1;
    }
    proof {
        assert(all_lines_ok(src@));
        lemma_scan_done(name, ls, k as int, in_entry, "Name"@);
        lemma_scan_done(exec_cmd, ls, k as int, in_entry, "Exec"@);
        lemma_scan_done(comment, ls, k as int, in_entry, "Comment"@);
        lemma_scan_done(categories, ls, k as int, in_entry, "Categories"@);
        lemma_scan_done(keywords, ls, k as int, in_entry, "Keywords"@);
        lemma_scan_done(terminal, ls, k as int, in_entry, "Terminal"@);
    }
    let exec_v = match exec_cmd {
        Some(e) => e,
        None => {
            return Err(ParseError::MissingExec);
        },
    };
    let name_v = match name {
        Some(x) => x,
        None => {
            return Err(ParseError::MissingName);
        },
    };
    let use_terminal = match &terminal {
        Some(t) => {
            let tr = String::from_str("true");
            *t == tr
        },
        None => false,
    };
    let app = Application {
        name: name_v,
        exec_cmd: exec_v,
        comment,
        categories,
        keywords,
        use_terminal,
    };
    proof {
        assert(app@ =~= spec_parse(src@)->Ok_0);
    }
    Ok(app)
}

} // verus!
