//! The text of the diagnostics: what each finding and configuration
//! diagnostic says, where it points, and which parts are highlighted.
//!
//! The text is produced as a sequence of pieces, each plain or highlighted in
//! one tone; a terminal front end gives each tone its colours.

use vstd::prelude::*;
use vstd::string::{StrSliceExecFns, StringExecFns, StringSliceAdditionalSpecFns};

use crate::config::{config_code, ConfigDiagnosticKind, LintOverride};
use crate::lint::{severity_text, LintLevel};
use crate::model::{finding_code, DefinitionKind, Finding, FindingKind};
use crate::protocol::{decimal, push_decimal};
use crate::text::{line_of, push_char, str_eq, text_line};
use vstd::utf8::encode_utf8;

verus! {

/// The highlight of a piece of diagnostic text.
#[derive(Clone, Copy, Debug, PartialEq, Eq, Structural)]
pub enum Tone {
    Warning,
    Error,
    Location,
    Separator,
    Help,
    Emphasis,
}

/// A piece of diagnostic text, plain or highlighted.
#[derive(Clone, Debug)]
pub struct StyledText {
    pub tone: Option<Tone>,
    pub text: String,
}

/// The plain value of a piece.
pub open spec fn piece_view(p: StyledText) -> (Option<Tone>, Seq<char>) {
    (p.tone, p.text@)
}

/// The plain values of pieces.
pub open spec fn pieces(v: Seq<StyledText>) -> Seq<(Option<Tone>, Seq<char>)> {
    v.map_values(|p: StyledText| piece_view(p))
}

/// A plain piece.
pub open spec fn plain(text: Seq<char>) -> (Option<Tone>, Seq<char>) {
    (None, text)
}

/// A highlighted piece.
pub open spec fn toned(tone: Tone, text: Seq<char>) -> (Option<Tone>, Seq<char>) {
    (Some(tone), text)
}

/// The characters of the pieces, without their highlights.
pub open spec fn plain_text(ps: Seq<(Option<Tone>, Seq<char>)>) -> Seq<char>
    decreases ps.len(),
{
    if ps.len() == 0 {
        Seq::empty()
    } else {
        plain_text(ps.drop_last()) + ps.last().1
    }
}

/// The tone of a diagnostic's level.
pub open spec fn level_tone(level: LintLevel) -> Tone {
    match level {
        LintLevel::Deny => Tone::Error,
        _ => Tone::Warning,
    }
}

/// `n` spaces.
pub open spec fn spaces(n: nat) -> Seq<char> {
    Seq::new(n, |i: int| ' ')
}

/// Appends a piece.
fn push_piece(out: &mut Vec<StyledText>, tone: Option<Tone>, text: String)
    ensures
        pieces(final(out)@) == pieces(old(out)@).push((tone, text@)),
{
    let ghost before = pieces(out@);
    out.push(StyledText { tone, text });
    proof {
        assert(pieces(out@) =~= before.push((tone, text@)));
    }
}

/// A string of `n` spaces.
fn space_string(n: usize) -> (r: String)
    ensures
        r@ == spaces(n as nat),
{
    let mut r = String::new();
    let mut i: usize = 0;
    while i < n
        invariant
            i <= n,
            r@ == spaces(i as nat),
        decreases n - i,
    {
        push_char(&mut r, ' ');
        i = i + 1;
        proof {
            assert(r@ =~= spaces(i as nat));
        }
    }
    r
}

/// The number of decimal digits of `n`.
fn decimal_width(n: usize) -> (r: usize)
    ensures
        r as nat == decimal(n as nat).len(),
        1 <= r <= n + 1,
    decreases n,
{
    if n < 10 {
        1
    } else {
        let w = decimal_width(n / 10);
        proof {
            assert(decimal(n as nat) == decimal((n / 10) as nat).push(crate::protocol::digit_char((n % 10) as nat)));
        }
        w + 1
    }
}

/// The indentation that puts a marker under column `column` of a source
/// line: one character for each character before it, a tab for a tab and a
/// space for anything else.
pub open spec fn spec_marker_indent(source_line: Seq<char>, column: nat) -> Seq<char> {
    let n = if column == 0 {
        0
    } else if column - 1 <= source_line.len() {
        (column - 1) as nat
    } else {
        source_line.len()
    };
    Seq::new(
        n,
        |i: int|
            if source_line[i] == '\t' {
                '\t'
            } else {
                ' '
            },
    )
}

/// The indentation that puts a marker under column `column` of a source line.
pub fn marker_indent(source_line: &str, column: usize) -> (r: String)
    ensures
        r@ == spec_marker_indent(source_line@, column as nat),
{
    let len = source_line.unicode_len();
    let n = if column == 0 {
        0
    } else if column - 1 <= len {
        column - 1
    } else {
        len
    };
    let mut r = String::new();
    let mut i: usize = 0;
    while i < n
        invariant
            n <= len,
            len == source_line@.len(),
            n == spec_marker_indent(source_line@, column as nat).len(),
            i <= n,
            r@ == spec_marker_indent(source_line@, column as nat).take(i as int),
        decreases n - i,
    {
        let c = source_line.get_char(i);
        if c == '\t' {
            push_char(&mut r, '\t');
        } else {
            push_char(&mut r, ' ');
        }
        proof {
            assert(r@ =~= spec_marker_indent(source_line@, column as nat).take(i + 1));
        }
        i = i + 1;
    }
    proof {
        assert(r@ =~= spec_marker_indent(source_line@, column as nat));
    }
    r
}

/// The header line of a diagnostic: its severity and lint code, then its
/// message.
pub open spec fn header_pieces(code: Seq<char>, message: Seq<char>, level: LintLevel) -> Seq<
    (Option<Tone>, Seq<char>),
> {
    seq![
        toned(level_tone(level), severity_text(level) + "["@ + code + "]"@),
        plain(": "@),
        toned(Tone::Emphasis, message),
        plain("\n"@),
    ]
}

/// Appends the header line of a diagnostic.
fn write_header(out: &mut Vec<StyledText>, code: &str, message: String, level: LintLevel)
    requires
        level != LintLevel::Allow,
    ensures
        pieces(final(out)@) == pieces(old(out)@) + header_pieces(code@, message@, level),
{
    let ghost before = pieces(out@);
    let mut head = String::from_str(level.severity());
    head.append("[");
    head.append(code);
    head.append("]");
    let tone = match level {
        LintLevel::Deny => Tone::Error,
        _ => Tone::Warning,
    };
    push_piece(out, Some(tone), head);
    push_piece(out, None, String::from_str(": "));
    push_piece(out, Some(Tone::Emphasis), message);
    push_piece(out, None, String::from_str("\n"));
    proof {
        assert(pieces(out@) =~= before + header_pieces(code@, message@, level));
    }
}

/// The location lines of a diagnostic: the file position, then, when the
/// source line is known, the line with a marker under the column.
pub open spec fn location_pieces(
    file: Seq<char>,
    line: nat,
    column: nat,
    source_line: Option<Seq<char>>,
    marker: Seq<char>,
    marker_tone: Tone,
) -> Seq<(Option<Tone>, Seq<char>)> {
    let width = decimal(line).len();
    let place = seq![
        plain("  "@),
        toned(Tone::Location, "-->"@),
        plain(" "@ + file + ":"@ + decimal(line) + ":"@ + decimal(column) + "\n"@),
    ];
    match source_line {
        None => place,
        Some(text) => place + seq![
            plain(spaces(width) + " "@),
            toned(Tone::Separator, "|"@),
            plain("\n"@),
            toned(Tone::Location, decimal(line)),
            plain(" "@),
            toned(Tone::Separator, "|"@),
            plain(" "@ + text + "\n"@),
            plain(spaces(width) + " "@),
            toned(Tone::Separator, "|"@),
            plain(" "@),
            toned(marker_tone, spec_marker_indent(text, column) + "^^^ "@ + marker),
            plain("\n"@),
        ],
    }
}

/// Appends the location lines of a diagnostic and returns the width of the
/// line number.
fn write_location(
    out: &mut Vec<StyledText>,
    file: &str,
    line: usize,
    column: usize,
    source_line: Option<&str>,
    marker: &str,
    marker_tone: Tone,
) -> (width: usize)
    ensures
        width as nat == decimal(line as nat).len(),
        pieces(final(out)@) == pieces(old(out)@) + location_pieces(
            file@,
            line as nat,
            column as nat,
            match source_line {
                Some(s) => Some(s@),
                None => None,
            },
            marker@,
            marker_tone,
        ),
{
    let ghost before = pieces(out@);
    push_piece(out, None, String::from_str("  "));
    push_piece(out, Some(Tone::Location), String::from_str("-->"));
    let mut place = String::from_str(" ");
    place.append(file);
    place.append(":");
    push_decimal(&mut place, line as u64);
    place.append(":");
    push_decimal(&mut place, column as u64);
    place.append("\n");
    push_piece(out, None, place);
    let width = decimal_width(line);
    let ghost after_place = pieces(out@);
    if let Some(text) = source_line {
        let mut pad = space_string(width);
        pad.append(" ");
        push_piece(out, None, pad);
        push_piece(out, Some(Tone::Separator), String::from_str("|"));
        push_piece(out, None, String::from_str("\n"));
        let mut number = String::new();
        push_decimal(&mut number, line as u64);
        push_piece(out, Some(Tone::Location), number);
        push_piece(out, None, String::from_str(" "));
        push_piece(out, Some(Tone::Separator), String::from_str("|"));
        let mut shown = String::from_str(" ");
        shown.append(text);
        shown.append("\n");
        push_piece(out, None, shown);
        let mut pad = space_string(width);
        pad.append(" ");
        push_piece(out, None, pad);
        push_piece(out, Some(Tone::Separator), String::from_str("|"));
        push_piece(out, None, String::from_str(" "));
        let mut mark = marker_indent(text, column);
        mark.append("^^^ ");
        mark.append(marker);
        push_piece(out, Some(marker_tone), mark);
        push_piece(out, None, String::from_str("\n"));
    }
    proof {
        assert(pieces(out@) =~= before + location_pieces(
            file@,
            line as nat,
            column as nat,
            match source_line {
                Some(s) => Some(s@),
                None => None,
            },
            marker@,
            marker_tone,
        ));
    }
    width
}

/// The help line under a located diagnostic.
pub open spec fn help_pieces(width: nat, help: Seq<char>) -> Seq<(Option<Tone>, Seq<char>)> {
    seq![
        plain(spaces(width) + " "@),
        toned(Tone::Separator, "="@),
        plain(" "@),
        toned(Tone::Help, "help"@),
        plain(": "@ + help + "\n"@),
    ]
}

/// An indented note or help line: `  = label: text`.
pub open spec fn note_pieces(label: Seq<char>, text: Seq<char>) -> Seq<(Option<Tone>, Seq<char>)> {
    seq![plain("  "@), toned(Tone::Separator, "="@), plain(" "@), toned(Tone::Help, label), plain(": "@ + text + "\n"@)]
}

/// Appends an indented note or help line.
fn write_note(out: &mut Vec<StyledText>, label: &str, text: String)
    ensures
        pieces(final(out)@) == pieces(old(out)@) + note_pieces(label@, text@),
{
    let ghost before = pieces(out@);
    push_piece(out, None, String::from_str("  "));
    push_piece(out, Some(Tone::Separator), String::from_str("="));
    push_piece(out, None, String::from_str(" "));
    push_piece(out, Some(Tone::Help), String::from_str(label));
    let mut rest = String::from_str(": ");
    rest.append(text.as_str());
    rest.append("\n");
    push_piece(out, None, rest);
    proof {
        assert(pieces(out@) =~= before + note_pieces(label@, text@));
    }
}

/// The pairs of finding and declaration kind that no finding has: a live
/// enum variant has no visibility finding, and restricted-visibility
/// findings exclude variants and re-exports.
pub open spec fn reported_combination(kind: FindingKind, definition_kind: DefinitionKind) -> bool {
    match kind {
        FindingKind::DeadPublic => true,
        FindingKind::UnnecessaryPublic => definition_kind != DefinitionKind::EnumVariant,
        _ => definition_kind != DefinitionKind::EnumVariant && definition_kind != DefinitionKind::Reexport,
    }
}

/// The message of a finding about `name` of crate `krate`; `source` names
/// what a dead declaration is not reachable from.
pub open spec fn finding_message(
    kind: FindingKind,
    definition_kind: DefinitionKind,
    test_only: bool,
    name: Seq<char>,
    krate: Seq<char>,
    source: Seq<char>,
) -> Seq<char> {
    match kind {
        FindingKind::DeadPublic => match definition_kind {
            DefinitionKind::EnumVariant => "`"@ + name + "` is a public enum variant but is not reachable from "@
                + source,
            DefinitionKind::Reexport => "public re-export `"@ + name + "` has no target reachable from "@ + source,
            DefinitionKind::Module => "public module `"@ + name + "` has no declaration reachable from "@ + source,
            _ => "`"@ + name + "` is public but is not reachable from "@ + source,
        },
        FindingKind::UnnecessaryPublic => match definition_kind {
            DefinitionKind::Reexport => if test_only {
                "public re-export `"@ + name + "` is needed only by tests; it can be `pub(crate)`"@
            } else {
                "public re-export `"@ + name
                    + "` is not required by any compiled cross-crate use; it can be `pub(crate)`"@
            },
            DefinitionKind::Module => if test_only {
                "public module `"@ + name + "` is needed only by tests; it can be `pub(crate)`"@
            } else {
                "public module `"@ + name + "` is used only within `"@ + krate + "`; it can be `pub(crate)`"@
            },
            _ => if test_only {
                "`"@ + name + "` is public but is needed only by tests; it can be `pub(crate)`"@
            } else {
                "`"@ + name + "` is public but all reachable uses are within `"@ + krate + "`; it can be `pub(crate)`"@
            },
        },
        FindingKind::UnnecessaryRestrictedVisibility => "`"@ + name
            + "` has explicit restricted visibility but all compiled uses fit within the defining module; it can be private"@,
        FindingKind::UnnecessaryCrateVisibility => "`"@ + name
            + "` is visible throughout the crate but all compiled uses fit within the parent module; it can be `pub(super)`"@,
    }
}

/// Whether `needle` occurs in `text` as a contiguous run.
pub open spec fn occurs_in(needle: Seq<char>, text: Seq<char>) -> bool {
    exists|i: int| 0 <= i && i + needle.len() <= text.len() && #[trigger] text.subrange(i, i + needle.len()) == needle
}

/// A run of a text's tail occurs in the whole text.
proof fn lemma_occurs_in_tail(needle: Seq<char>, head: Seq<char>, tail: Seq<char>, at: int)
    requires
        0 <= at,
        at + needle.len() <= tail.len(),
        tail.subrange(at, at + needle.len()) == needle,
    ensures
        occurs_in(needle, head + tail),
{
    let i = head.len() + at;
    assert((head + tail).subrange(i, i + needle.len()) =~= tail.subrange(at, at + needle.len()));
}

/// A finding that a declaration is public only for the sake of tests says
/// that it is needed only by tests, whatever kind of declaration it is and
/// whatever its name and crate.
pub proof fn lemma_test_only_message_names_tests(
    definition_kind: DefinitionKind,
    name: Seq<char>,
    krate: Seq<char>,
    source: Seq<char>,
)
    ensures
        occurs_in(
            "needed only by tests"@,
            finding_message(FindingKind::UnnecessaryPublic, definition_kind, true, name, krate, source),
        ),
{
    let needle = "needed only by tests"@;
    reveal_strlit("needed only by tests");
    match definition_kind {
        DefinitionKind::Reexport => {
            let tail = "` is needed only by tests; it can be `pub(crate)`"@;
            reveal_strlit("` is needed only by tests; it can be `pub(crate)`");
            assert(tail.subrange(5, 25) =~= needle);
            lemma_occurs_in_tail(needle, "public re-export `"@ + name, tail, 5);
        },
        DefinitionKind::Module => {
            let tail = "` is needed only by tests; it can be `pub(crate)`"@;
            reveal_strlit("` is needed only by tests; it can be `pub(crate)`");
            assert(tail.subrange(5, 25) =~= needle);
            lemma_occurs_in_tail(needle, "public module `"@ + name, tail, 5);
        },
        _ => {
            let tail = "` is public but is needed only by tests; it can be `pub(crate)`"@;
            reveal_strlit("` is public but is needed only by tests; it can be `pub(crate)`");
            assert(tail.subrange(19, 39) =~= needle);
            lemma_occurs_in_tail(needle, "`"@ + name, tail, 19);
        },
    }
}

/// Whether `text` ends with `needle`.
pub open spec fn ends_in(needle: Seq<char>, text: Seq<char>) -> bool {
    needle.len() <= text.len() && text.subrange(text.len() - needle.len(), text.len() as int) == needle
}

/// A name between two backquotes, one closing `head` and one opening
/// `tail`, occurs quoted in the text.
proof fn lemma_quoted_name_occurs(head: Seq<char>, name: Seq<char>, tail: Seq<char>, rest: Seq<char>)
    requires
        head.len() >= 1,
        head[head.len() - 1] == '`',
        tail.len() >= 1,
        tail[0] == '`',
    ensures
        occurs_in("`"@ + name + "`"@, head + name + tail + rest),
{
    reveal_strlit("`");
    let needle = "`"@ + name + "`"@;
    let i = head.len() - 1;
    assert((head + name + tail + rest).subrange(i, i + needle.len()) =~= needle);
}

/// A text whose last part ends with `needle` ends with it too.
proof fn lemma_ends_in_tail(needle: Seq<char>, head: Seq<char>, tail: Seq<char>)
    requires
        ends_in(needle, tail),
    ensures
        ends_in(needle, head + tail),
{
    let t = head + tail;
    assert(t.subrange(t.len() - needle.len(), t.len() as int) =~= tail.subrange(
        tail.len() - needle.len(),
        tail.len() as int,
    ));
}

/// Every finding message names its declaration between backquotes.
pub proof fn lemma_finding_message_names_declaration(
    kind: FindingKind,
    definition_kind: DefinitionKind,
    test_only: bool,
    name: Seq<char>,
    krate: Seq<char>,
    source: Seq<char>,
)
    ensures
        occurs_in("`"@ + name + "`"@, finding_message(kind, definition_kind, test_only, name, krate, source)),
{
    let m = finding_message(kind, definition_kind, test_only, name, krate, source);
    reveal_strlit("`");
    reveal_strlit("public re-export `");
    reveal_strlit("public module `");
    let e = Seq::<char>::empty();
    match kind {
        FindingKind::DeadPublic => match definition_kind {
            DefinitionKind::EnumVariant => {
                let t = "` is a public enum variant but is not reachable from "@;
                reveal_strlit("` is a public enum variant but is not reachable from ");
                lemma_quoted_name_occurs("`"@, name, t, source);
            },
            DefinitionKind::Reexport => {
                let t = "` has no target reachable from "@;
                reveal_strlit("` has no target reachable from ");
                lemma_quoted_name_occurs("public re-export `"@, name, t, source);
            },
            DefinitionKind::Module => {
                let t = "` has no declaration reachable from "@;
                reveal_strlit("` has no declaration reachable from ");
                lemma_quoted_name_occurs("public module `"@, name, t, source);
            },
            _ => {
                let t = "` is public but is not reachable from "@;
                reveal_strlit("` is public but is not reachable from ");
                lemma_quoted_name_occurs("`"@, name, t, source);
            },
        },
        FindingKind::UnnecessaryPublic => match definition_kind {
            DefinitionKind::Reexport => if test_only {
                let t = "` is needed only by tests; it can be `pub(crate)`"@;
                reveal_strlit("` is needed only by tests; it can be `pub(crate)`");
                lemma_quoted_name_occurs("public re-export `"@, name, t, e);
                assert(m =~= "public re-export `"@ + name + t + e);
            } else {
                let t = "` is not required by any compiled cross-crate use; it can be `pub(crate)`"@;
                reveal_strlit("` is not required by any compiled cross-crate use; it can be `pub(crate)`");
                lemma_quoted_name_occurs("public re-export `"@, name, t, e);
                assert(m =~= "public re-export `"@ + name + t + e);
            },
            DefinitionKind::Module => if test_only {
                let t = "` is needed only by tests; it can be `pub(crate)`"@;
                reveal_strlit("` is needed only by tests; it can be `pub(crate)`");
                lemma_quoted_name_occurs("public module `"@, name, t, e);
                assert(m =~= "public module `"@ + name + t + e);
            } else {
                let t = "` is used only within `"@;
                let rest = krate + "`; it can be `pub(crate)`"@;
                reveal_strlit("` is used only within `");
                lemma_quoted_name_occurs("public module `"@, name, t, rest);
                assert(m =~= "public module `"@ + name + t + rest);
            },
            _ => if test_only {
                let t = "` is public but is needed only by tests; it can be `pub(crate)`"@;
                reveal_strlit("` is public but is needed only by tests; it can be `pub(crate)`");
                lemma_quoted_name_occurs("`"@, name, t, e);
                assert(m =~= "`"@ + name + t + e);
            } else {
                let t = "` is public but all reachable uses are within `"@;
                let rest = krate + "`; it can be `pub(crate)`"@;
                reveal_strlit("` is public but all reachable uses are within `");
                lemma_quoted_name_occurs("`"@, name, t, rest);
                assert(m =~= "`"@ + name + t + rest);
            },
        },
        FindingKind::UnnecessaryRestrictedVisibility => {
            let t
                = "` has explicit restricted visibility but all compiled uses fit within the defining module; it can be private"@;
            reveal_strlit(
                "` has explicit restricted visibility but all compiled uses fit within the defining module; it can be private",
            );
            lemma_quoted_name_occurs("`"@, name, t, e);
            assert(m =~= "`"@ + name + t + e);
        },
        FindingKind::UnnecessaryCrateVisibility => {
            let t
                = "` is visible throughout the crate but all compiled uses fit within the parent module; it can be `pub(super)`"@;
            reveal_strlit(
                "` is visible throughout the crate but all compiled uses fit within the parent module; it can be `pub(super)`",
            );
            lemma_quoted_name_occurs("`"@, name, t, e);
            assert(m =~= "`"@ + name + t + e);
        },
    }
}

/// Every finding that proposes a narrower visibility ends its message with
/// that proposal: `pub(crate)` for public declarations, `pub(super)` for
/// crate-visible ones, and private for restricted ones.
pub proof fn lemma_finding_message_ends_with_proposal(
    kind: FindingKind,
    definition_kind: DefinitionKind,
    test_only: bool,
    name: Seq<char>,
    krate: Seq<char>,
    source: Seq<char>,
)
    requires
        kind != FindingKind::DeadPublic,
    ensures
        ends_in(
            match kind {
                FindingKind::UnnecessaryPublic => "it can be `pub(crate)`"@,
                FindingKind::UnnecessaryCrateVisibility => "it can be `pub(super)`"@,
                _ => "it can be private"@,
            },
            finding_message(kind, definition_kind, test_only, name, krate, source),
        ),
{
    let m = finding_message(kind, definition_kind, test_only, name, krate, source);
    reveal_strlit("it can be `pub(crate)`");
    reveal_strlit("it can be `pub(super)`");
    reveal_strlit("it can be private");
    match kind {
        FindingKind::UnnecessaryPublic => {
            let needle = "it can be `pub(crate)`"@;
            match definition_kind {
                DefinitionKind::Reexport => if test_only {
                    let t = "` is needed only by tests; it can be `pub(crate)`"@;
                    reveal_strlit("` is needed only by tests; it can be `pub(crate)`");
                    assert(t.subrange(t.len() - needle.len(), t.len() as int) =~= needle);
                    lemma_ends_in_tail(needle, "public re-export `"@ + name, t);
                } else {
                    let t = "` is not required by any compiled cross-crate use; it can be `pub(crate)`"@;
                    reveal_strlit("` is not required by any compiled cross-crate use; it can be `pub(crate)`");
                    assert(t.subrange(t.len() - needle.len(), t.len() as int) =~= needle);
                    lemma_ends_in_tail(needle, "public re-export `"@ + name, t);
                },
                DefinitionKind::Module => if test_only {
                    let t = "` is needed only by tests; it can be `pub(crate)`"@;
                    reveal_strlit("` is needed only by tests; it can be `pub(crate)`");
                    assert(t.subrange(t.len() - needle.len(), t.len() as int) =~= needle);
                    lemma_ends_in_tail(needle, "public module `"@ + name, t);
                } else {
                    let t = "`; it can be `pub(crate)`"@;
                    reveal_strlit("`; it can be `pub(crate)`");
                    assert(t.subrange(t.len() - needle.len(), t.len() as int) =~= needle);
                    lemma_ends_in_tail(needle, "public module `"@ + name + "` is used only within `"@ + krate, t);
                },
                _ => if test_only {
                    let t = "` is public but is needed only by tests; it can be `pub(crate)`"@;
                    reveal_strlit("` is public but is needed only by tests; it can be `pub(crate)`");
                    assert(t.subrange(t.len() - needle.len(), t.len() as int) =~= needle);
                    lemma_ends_in_tail(needle, "`"@ + name, t);
                } else {
                    let t = "`; it can be `pub(crate)`"@;
                    reveal_strlit("`; it can be `pub(crate)`");
                    assert(t.subrange(t.len() - needle.len(), t.len() as int) =~= needle);
                    lemma_ends_in_tail(needle, "`"@ + name + "` is public but all reachable uses are within `"@ + krate, t);
                },
            }
        },
        FindingKind::UnnecessaryRestrictedVisibility => {
            let needle = "it can be private"@;
            let t
                = "` has explicit restricted visibility but all compiled uses fit within the defining module; it can be private"@;
            reveal_strlit(
                "` has explicit restricted visibility but all compiled uses fit within the defining module; it can be private",
            );
            assert(t.subrange(t.len() - needle.len(), t.len() as int) =~= needle);
            lemma_ends_in_tail(needle, "`"@ + name, t);
        },
        FindingKind::UnnecessaryCrateVisibility => {
            let needle = "it can be `pub(super)`"@;
            let t
                = "` is visible throughout the crate but all compiled uses fit within the parent module; it can be `pub(super)`"@;
            reveal_strlit(
                "` is visible throughout the crate but all compiled uses fit within the parent module; it can be `pub(super)`",
            );
            assert(t.subrange(t.len() - needle.len(), t.len() as int) =~= needle);
            lemma_ends_in_tail(needle, "`"@ + name, t);
        },
        FindingKind::DeadPublic => {},
    }
}

/// The help of a finding.
pub open spec fn finding_help(kind: FindingKind, definition_kind: DefinitionKind) -> Seq<char> {
    match kind {
        FindingKind::DeadPublic => match definition_kind {
            DefinitionKind::EnumVariant => "consider removing this variant and its remaining uses"@,
            DefinitionKind::Reexport => "consider restricting this re-export's visibility or removing it"@,
            DefinitionKind::Module => "consider restricting this module's visibility or removing it"@,
            _ => "consider restricting this declaration's visibility or removing it"@,
        },
        FindingKind::UnnecessaryPublic => match definition_kind {
            DefinitionKind::Reexport => "change this re-export to `pub(crate) use`"@,
            DefinitionKind::Module => "change this module to `pub(crate) mod`"@,
            _ => "change this declaration to `pub(crate)`"@,
        },
        FindingKind::UnnecessaryRestrictedVisibility => match definition_kind {
            DefinitionKind::Module => "remove this module's visibility modifier"@,
            _ => "remove this declaration's visibility modifier"@,
        },
        FindingKind::UnnecessaryCrateVisibility => match definition_kind {
            DefinitionKind::Module => "change this module to `pub(super) mod`"@,
            _ => "change this declaration to `pub(super)`"@,
        },
    }
}

/// The label of the marker under a finding's declaration.
pub open spec fn finding_marker(kind: FindingKind, definition_kind: DefinitionKind) -> Seq<char> {
    match kind {
        FindingKind::DeadPublic | FindingKind::UnnecessaryPublic => match definition_kind {
            DefinitionKind::EnumVariant => "public enum variant"@,
            DefinitionKind::Reexport => "public re-export"@,
            DefinitionKind::Module => "public module"@,
            _ => "public declaration"@,
        },
        FindingKind::UnnecessaryRestrictedVisibility => match definition_kind {
            DefinitionKind::Module => "restricted-visibility module"@,
            _ => "restricted-visibility declaration"@,
        },
        FindingKind::UnnecessaryCrateVisibility => match definition_kind {
            DefinitionKind::Module => "crate-visible module"@,
            _ => "crate-visible declaration"@,
        },
    }
}

/// What a dead finding is not reachable from: any workspace test for a
/// declaration compiled only for tests, the production binaries otherwise.
pub open spec fn reachability_source(test_compiled_only: bool, production_description: Seq<char>) -> Seq<char> {
    if test_compiled_only {
        "any workspace test"@
    } else {
        production_description
    }
}

/// The pieces of a finding's diagnostic: the header, the location and help
/// when the declaration has a source location, a note naming its crate and
/// the help otherwise, and a blank line.
pub open spec fn diagnostic_pieces(
    f: Finding,
    production_description: Seq<char>,
    source_line: Option<Seq<char>>,
    level: LintLevel,
) -> Seq<(Option<Tone>, Seq<char>)> {
    let d = *f.definition;
    let message = finding_message(
        f.kind,
        d.kind,
        f.test_only,
        d.name@,
        d.crate_name@,
        reachability_source(f.test_compiled_only, production_description),
    );
    let help = finding_help(f.kind, d.kind);
    let body = match d.span {
        Some(span) => location_pieces(
            span.file@,
            span.line as nat,
            span.column as nat,
            source_line,
            finding_marker(f.kind, d.kind),
            level_tone(level),
        ) + help_pieces(decimal(span.line as nat).len(), help),
        None => note_pieces("note"@, "declaration in crate `"@ + d.crate_name@ + "`"@) + note_pieces("help"@, help),
    };
    header_pieces(finding_code(f.kind), message, level) + body + seq![plain("\n"@)]
}

/// The text of a finding's message.
fn message_of(f: &Finding, production_description: &str) -> (r: String)
    ensures
        r@ == finding_message(
            f.kind,
            f.definition.kind,
            f.test_only,
            f.definition.name@,
            f.definition.crate_name@,
            reachability_source(f.test_compiled_only, production_description@),
        ),
{
    let name = f.definition.name.as_str();
    let krate = f.definition.crate_name.as_str();
    let source = if f.test_compiled_only {
        "any workspace test"
    } else {
        production_description
    };
    let mut r = String::new();
    match f.kind {
        FindingKind::DeadPublic => match f.definition.kind {
            DefinitionKind::EnumVariant => {
                r.append("`");
                r.append(name);
                r.append("` is a public enum variant but is not reachable from ");
                r.append(source);
            },
            DefinitionKind::Reexport => {
                r.append("public re-export `");
                r.append(name);
                r.append("` has no target reachable from ");
                r.append(source);
            },
            DefinitionKind::Module => {
                r.append("public module `");
                r.append(name);
                r.append("` has no declaration reachable from ");
                r.append(source);
            },
            _ => {
                r.append("`");
                r.append(name);
                r.append("` is public but is not reachable from ");
                r.append(source);
            },
        },
        FindingKind::UnnecessaryPublic => match f.definition.kind {
            DefinitionKind::Reexport => {
                r.append("public re-export `");
                r.append(name);
                if f.test_only {
                    r.append("` is needed only by tests; it can be `pub(crate)`");
                } else {
                    r.append("` is not required by any compiled cross-crate use; it can be `pub(crate)`");
                }
            },
            DefinitionKind::Module => {
                r.append("public module `");
                r.append(name);
                if f.test_only {
                    r.append("` is needed only by tests; it can be `pub(crate)`");
                } else {
                    r.append("` is used only within `");
                    r.append(krate);
                    r.append("`; it can be `pub(crate)`");
                }
            },
            _ => {
                r.append("`");
                r.append(name);
                if f.test_only {
                    r.append("` is public but is needed only by tests; it can be `pub(crate)`");
                } else {
                    r.append("` is public but all reachable uses are within `");
                    r.append(krate);
                    r.append("`; it can be `pub(crate)`");
                }
            },
        },
        FindingKind::UnnecessaryRestrictedVisibility => {
            r.append("`");
            r.append(name);
            r.append(
                "` has explicit restricted visibility but all compiled uses fit within the defining module; it can be private",
            );
        },
        FindingKind::UnnecessaryCrateVisibility => {
            r.append("`");
            r.append(name);
            r.append(
                "` is visible throughout the crate but all compiled uses fit within the parent module; it can be `pub(super)`",
            );
        },
    }
    proof {
        let m = finding_message(
            f.kind,
            f.definition.kind,
            f.test_only,
            f.definition.name@,
            f.definition.crate_name@,
            reachability_source(f.test_compiled_only, production_description@),
        );
        assert(r@ =~= m);
    }
    r
}

/// The help of a finding, as text.
fn help_of(kind: FindingKind, definition_kind: DefinitionKind) -> (r: &'static str)
    ensures
        r@ == finding_help(kind, definition_kind),
{
    match kind {
        FindingKind::DeadPublic => match definition_kind {
            DefinitionKind::EnumVariant => "consider removing this variant and its remaining uses",
            DefinitionKind::Reexport => "consider restricting this re-export's visibility or removing it",
            DefinitionKind::Module => "consider restricting this module's visibility or removing it",
            _ => "consider restricting this declaration's visibility or removing it",
        },
        FindingKind::UnnecessaryPublic => match definition_kind {
            DefinitionKind::Reexport => "change this re-export to `pub(crate) use`",
            DefinitionKind::Module => "change this module to `pub(crate) mod`",
            _ => "change this declaration to `pub(crate)`",
        },
        FindingKind::UnnecessaryRestrictedVisibility => match definition_kind {
            DefinitionKind::Module => "remove this module's visibility modifier",
            _ => "remove this declaration's visibility modifier",
        },
        FindingKind::UnnecessaryCrateVisibility => match definition_kind {
            DefinitionKind::Module => "change this module to `pub(super) mod`",
            _ => "change this declaration to `pub(super)`",
        },
    }
}

/// The marker label of a finding, as text.
fn marker_of(kind: FindingKind, definition_kind: DefinitionKind) -> (r: &'static str)
    ensures
        r@ == finding_marker(kind, definition_kind),
{
    match kind {
        FindingKind::DeadPublic | FindingKind::UnnecessaryPublic => match definition_kind {
            DefinitionKind::EnumVariant => "public enum variant",
            DefinitionKind::Reexport => "public re-export",
            DefinitionKind::Module => "public module",
            _ => "public declaration",
        },
        FindingKind::UnnecessaryRestrictedVisibility => match definition_kind {
            DefinitionKind::Module => "restricted-visibility module",
            _ => "restricted-visibility declaration",
        },
        FindingKind::UnnecessaryCrateVisibility => match definition_kind {
            DefinitionKind::Module => "crate-visible module",
            _ => "crate-visible declaration",
        },
    }
}

/// Appends the diagnostic of a finding; `source_line` is the source line of
/// its declaration, when it could be read.
pub fn write_diagnostic(
    out: &mut Vec<StyledText>,
    finding: &Finding,
    production_description: &str,
    source_line: Option<&str>,
    level: LintLevel,
)
    requires
        level != LintLevel::Allow,
        reported_combination(finding.kind, finding.definition.kind),
    ensures
        pieces(final(out)@) == pieces(old(out)@) + diagnostic_pieces(
            *finding,
            production_description@,
            match source_line {
                Some(s) => Some(s@),
                None => None,
            },
            level,
        ),
{
    let ghost before = pieces(out@);
    let message = message_of(finding, production_description);
    let help = help_of(finding.kind, finding.definition.kind);
    write_header(out, finding.kind.code(), message, level);
    let ghost after_header = pieces(out@);
    match &finding.definition.span {
        Some(span) => {
            let tone = match level {
                LintLevel::Deny => Tone::Error,
                _ => Tone::Warning,
            };
            let width = write_location(
                out,
                span.file.as_str(),
                span.line,
                span.column,
                source_line,
                marker_of(finding.kind, finding.definition.kind),
                tone,
            );
            let ghost after_location = pieces(out@);
            let mut pad = space_string(width);
            pad.append(" ");
            push_piece(out, None, pad);
            push_piece(out, Some(Tone::Separator), String::from_str("="));
            push_piece(out, None, String::from_str(" "));
            push_piece(out, Some(Tone::Help), String::from_str("help"));
            let mut rest = String::from_str(": ");
            rest.append(help);
            rest.append("\n");
            push_piece(out, None, rest);
            proof {
                assert(pieces(out@) =~= after_location + help_pieces(decimal(span.line as nat).len(), help@));
            }
        },
        None => {
            let mut note = String::from_str("declaration in crate `");
            note.append(finding.definition.crate_name.as_str());
            note.append("`");
            write_note(out, "note", note);
            write_note(out, "help", String::from_str(help));
        },
    }
    push_piece(out, None, String::from_str("\n"));
    proof {
        reveal_strlit("note");
        reveal_strlit("help");
        assert(pieces(out@) =~= before + diagnostic_pieces(
            *finding,
            production_description@,
            match source_line {
                Some(s) => Some(s@),
                None => None,
            },
            level,
        ));
    }
}

/// The message, marker label and help of a configuration diagnostic about
/// the item `item` of an override of lint `code`.
pub open spec fn config_texts(kind: ConfigDiagnosticKind, code: Seq<char>, item: Seq<char>) -> (
    Seq<char>,
    Seq<char>,
    Seq<char>,
) {
    match kind {
        ConfigDiagnosticKind::UnknownItem => (
            "override for `"@ + code + "` references unknown item `"@ + item + "`"@,
            "no matching item was found"@,
            "remove this override or update its `crate` and `item` selectors"@,
        ),
        ConfigDiagnosticKind::AmbiguousItem => (
            "override for `"@ + code + "` matches multiple items named `"@ + item + "`"@,
            "selector matches multiple items"@,
            "add a `kind` selector or otherwise disambiguate this override"@,
        ),
        ConfigDiagnosticKind::UnfulfilledExpectation => (
            "expected `"@ + code + "` for `"@ + item + "`, but no finding was produced"@,
            "unfulfilled expectation"@,
            "remove this expectation or update its `lint` selector"@,
        ),
    }
}

/// The pieces of a configuration diagnostic: the header, the location of the
/// override in the file shown as `display_path`, its reason, the help, and a
/// blank line.
pub open spec fn config_diagnostic_pieces(
    kind: ConfigDiagnosticKind,
    entry: LintOverride,
    display_path: Seq<char>,
    source_line: Option<Seq<char>>,
    level: LintLevel,
) -> Seq<(Option<Tone>, Seq<char>)> {
    let texts = config_texts(kind, finding_code(entry.lint), entry.crate_name@ + "::"@ + entry.item@);
    header_pieces(config_code(kind), texts.0, level) + location_pieces(
        display_path,
        entry.span.line as nat,
        entry.span.column as nat,
        source_line,
        texts.1,
        level_tone(level),
    ) + note_pieces("note"@, "reason: "@ + entry.reason@) + note_pieces("help"@, texts.2) + seq![plain("\n"@)]
}

/// Appends a configuration diagnostic; `source_line` is the line of the
/// configuration file where the override starts, when it exists.
pub fn write_config_diagnostic(
    out: &mut Vec<StyledText>,
    kind: ConfigDiagnosticKind,
    entry: &LintOverride,
    display_path: &str,
    source_line: Option<&str>,
    level: LintLevel,
)
    requires
        level != LintLevel::Allow,
    ensures
        pieces(final(out)@) == pieces(old(out)@) + config_diagnostic_pieces(
            kind,
            *entry,
            display_path@,
            match source_line {
                Some(s) => Some(s@),
                None => None,
            },
            level,
        ),
{
    let ghost before = pieces(out@);
    let code = entry.lint.code();
    let mut item = entry.crate_name.clone();
    item.append("::");
    item.append(entry.item.as_str());
    let mut message = String::new();
    let (marker, help) = match kind {
        ConfigDiagnosticKind::UnknownItem => {
            message.append("override for `");
            message.append(code);
            message.append("` references unknown item `");
            message.append(item.as_str());
            message.append("`");
            ("no matching item was found", "remove this override or update its `crate` and `item` selectors")
        },
        ConfigDiagnosticKind::AmbiguousItem => {
            message.append("override for `");
            message.append(code);
            message.append("` matches multiple items named `");
            message.append(item.as_str());
            message.append("`");
            ("selector matches multiple items", "add a `kind` selector or otherwise disambiguate this override")
        },
        ConfigDiagnosticKind::UnfulfilledExpectation => {
            message.append("expected `");
            message.append(code);
            message.append("` for `");
            message.append(item.as_str());
            message.append("`, but no finding was produced");
            ("unfulfilled expectation", "remove this expectation or update its `lint` selector")
        },
    };
    let ghost texts = config_texts(kind, finding_code(entry.lint), entry.crate_name@ + "::"@ + entry.item@);
    proof {
        assert(message@ =~= texts.0);
        assert(marker@ == texts.1);
        assert(help@ == texts.2);
    }
    write_header(out, kind.code(), message, level);
    let tone = match level {
        LintLevel::Deny => Tone::Error,
        _ => Tone::Warning,
    };
    write_location(out, display_path, entry.span.line, entry.span.column, source_line, marker, tone);
    let mut reason = String::from_str("reason: ");
    reason.append(entry.reason.as_str());
    write_note(out, "note", reason);
    write_note(out, "help", String::from_str(help));
    push_piece(out, None, String::from_str("\n"));
    proof {
        reveal_strlit("note");
        reveal_strlit("help");
        assert(pieces(out@) =~= before + config_diagnostic_pieces(
            kind,
            *entry,
            display_path@,
            match source_line {
                Some(s) => Some(s@),
                None => None,
            },
            level,
        ));
    }
}

/// The closing summary line.
pub open spec fn summary_text(count: nat, production_summary: Seq<char>, compilation_target: Seq<char>) -> Seq<char> {
    "hawk: "@ + decimal(count) + " finding(s) for "@ + production_summary
        + " and workspace non-production targets on "@ + compilation_target + "\n"@
}

/// Appends the closing summary line: how many diagnostics were emitted, for
/// which production binaries, on which compilation target.
pub fn write_summary(
    out: &mut Vec<StyledText>,
    diagnostic_count: usize,
    production_summary: &str,
    compilation_target: &str,
)
    ensures
        pieces(final(out)@) == pieces(old(out)@).push(
            plain(summary_text(diagnostic_count as nat, production_summary@, compilation_target@)),
        ),
{
    let mut line = String::from_str("hawk: ");
    push_decimal(&mut line, diagnostic_count as u64);
    line.append(" finding(s) for ");
    line.append(production_summary);
    line.append(" and workspace non-production targets on ");
    line.append(compilation_target);
    line.append("\n");
    push_piece(out, None, line);
}

/// The pieces of a fatal error: `error: ` and the message.
pub open spec fn error_pieces(message: Seq<char>) -> Seq<(Option<Tone>, Seq<char>)> {
    seq![toned(Tone::Error, "error"@), plain(": "@), toned(Tone::Emphasis, message), plain("\n"@)]
}

/// The pieces that report a fatal error.
pub fn error_report(message: &str) -> (r: Vec<StyledText>)
    ensures
        pieces(r@) == error_pieces(message@),
{
    let mut out: Vec<StyledText> = Vec::new();
    push_piece(&mut out, Some(Tone::Error), String::from_str("error"));
    push_piece(&mut out, None, String::from_str(": "));
    push_piece(&mut out, Some(Tone::Emphasis), String::from_str(message));
    push_piece(&mut out, None, String::from_str("\n"));
    proof {
        assert(pieces(out@) =~= error_pieces(message@));
    }
    out
}

/// The characters of the pieces, without their highlights.
pub fn to_plain_text(ps: &Vec<StyledText>) -> (r: String)
    ensures
        r@ == plain_text(pieces(ps@)),
{
    let mut r = String::new();
    let mut i: usize = 0;
    while i < ps.len()
        invariant
            i <= ps@.len(),
            r@ == plain_text(pieces(ps@).take(i as int)),
        decreases ps@.len() - i,
    {
        r.append(ps[i].text.as_str());
        proof {
            assert(pieces(ps@).take(i + 1).drop_last() =~= pieces(ps@).take(i as int));
        }
        i = i + 1;
    }
    proof {
        assert(pieces(ps@).take(i as int) =~= pieces(ps@));
    }
    r
}

/// A source file kept for quoting its lines in diagnostics.
#[derive(Clone, Debug)]
pub struct CachedSource {
    source: String,
}

impl CachedSource {
    /// The bytes of the cached source.
    pub closed spec fn spec_bytes(&self) -> Seq<u8> {
        encode_utf8(self.source@)
    }

    /// Keeps a source file.
    pub fn new(source: String) -> (r: Self)
        ensures
            r.spec_bytes() == encode_utf8(source@),
    {
        CachedSource { source }
    }

    /// Line `line` of the source, counted from one, without its line ending.
    pub fn line(&self, line: usize) -> (r: Option<&str>)
        ensures
            match text_line(self.spec_bytes(), line as int) {
                Some(l) => r matches Some(x) && x.spec_bytes() == l,
                None => r is None,
            },
    {
        line_of(self.source.as_str(), line)
    }
}

/// The source that a loader gave for a file, as bytes, if it gave one.
pub open spec fn loaded_bytes(s: Option<String>) -> Option<Seq<u8>> {
    match s {
        Some(text) => Some(encode_utf8(text@)),
        None => None,
    }
}

/// The entry of `path` in a cache's entries, if it has one.
pub open spec fn cached_entry(entries: Seq<(Seq<char>, Option<Seq<u8>>)>, path: Seq<char>) -> Option<Option<Seq<u8>>>
    decreases entries.len(),
{
    if entries.len() == 0 {
        None
    } else if entries.last().0 == path {
        Some(entries.last().1)
    } else {
        cached_entry(entries.drop_last(), path)
    }
}

/// Line `line` of a source, if the source could be read and has that line.
pub open spec fn source_text_line(source: Option<Seq<u8>>, line: int) -> Option<Seq<u8>> {
    match source {
        Some(b) => text_line(b, line),
        None => None,
    }
}

/// The source files that diagnostics quote, each read at most once: a file
/// that could not be read is remembered as such.
pub struct SourceCache {
    entries: Vec<(String, Option<CachedSource>)>,
}

impl View for SourceCache {
    type V = Seq<(Seq<char>, Option<Seq<u8>>)>;

    /// The files read so far, in reading order, with their sources.
    closed spec fn view(&self) -> Seq<(Seq<char>, Option<Seq<u8>>)> {
        self.entries@.map_values(
            |e: (String, Option<CachedSource>)|
                (
                    e.0@,
                    match e.1 {
                        Some(c) => Some(c.spec_bytes()),
                        None => None,
                    },
                ),
        )
    }
}

impl SourceCache {
    /// A cache that has read nothing.
    pub fn new() -> (r: Self)
        ensures
            r@ == Seq::<(Seq<char>, Option<Seq<u8>>)>::empty(),
    {
        let r = SourceCache { entries: Vec::new() };
        assert(r@ =~= Seq::<(Seq<char>, Option<Seq<u8>>)>::empty());
        r
    }

    /// Line `line`, counted from one, of the file at `path`. A file read
    /// before is not read again; otherwise `load` reads it, once, and the
    /// cache keeps what it gave.
    pub fn source_line<F: FnOnce(&str) -> Option<String>>(&mut self, path: &str, line: usize, load: F) -> (r: Option<
        String,
    >)
        requires
            call_requires(load, (path,)),
        ensures
            cached_entry(final(self)@, path@) is Some,
            match cached_entry(old(self)@, path@) {
                Some(source) => {
                    &&& final(self)@ == old(self)@
                    &&& match source_text_line(source, line as int) {
                        Some(l) => r matches Some(x) && encode_utf8(x@) == l,
                        None => r is None,
                    }
                },
                None => exists|loaded: Option<String>|
                    {
                        &&& call_ensures(load, (path,), loaded)
                        &&& final(self)@ == old(self)@.push((path@, loaded_bytes(loaded)))
                        &&& match source_text_line(loaded_bytes(loaded), line as int) {
                            Some(l) => r matches Some(x) && encode_utf8(x@) == l,
                            None => r is None,
                        }
                    },
            },
    {
        let ghost entries = self@;
        let mut k = self.entries.len();
        assert(entries.take(k as int) =~= entries);
        while k > 0
            invariant
                k <= self.entries@.len(),
                entries == self@,
                cached_entry(entries, path@) == cached_entry(entries.take(k as int), path@),
            decreases k,
        {
            assert(entries.take(k as int).drop_last() =~= entries.take(k - 1));
            assert(entries.take(k as int).last() == entries[k - 1]);
            if str_eq(self.entries[k - 1].0.as_str(), path) {
                let r = match &self.entries[k - 1].1 {
                    Some(source) => match source.line(line) {
                        Some(x) => Some(String::from_str(x)),
                        None => None,
                    },
                    None => None,
                };
                return r;
            }
            k = k - 1;
        }
        assert(cached_entry(entries.take(0), path@) is None);
        let loaded = load(path);
        let ghost given = loaded;
        let cached = match loaded {
            Some(text) => Some(CachedSource::new(text)),
            None => None,
        };
        let r = match &cached {
            Some(source) => match source.line(line) {
                Some(x) => Some(String::from_str(x)),
                None => None,
            },
            None => None,
        };
        self.entries.push((String::from_str(path), cached));
        proof {
            let now = self@;
            assert(now.last() == (path@, loaded_bytes(given)));
            assert(now =~= entries.push((path@, loaded_bytes(given))));
            assert(now.drop_last() =~= entries);
            assert(call_ensures(load, (path,), given));
        }
        r
    }
}

} // verus!
