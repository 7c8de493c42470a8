//! The variables of snippets.

use crate::chars;
use crate::rope;
use crate::text;
use crate::text::Document;
use ropey::Rope;
use vstd::prelude::*;
use vstd::string::*;
use vstd::utf8::*;

verus! {

pub const MAX_VARIABLE_VALUE_BYTES: usize = 4_194_304;

/// Stable document and language metadata used while expanding completion
/// snippets. Volatile values such as selection, cursor, clipboard, and time
/// are captured by the editor when the completion is accepted.
#[derive(Clone, Debug, PartialEq, Eq)]
pub struct SnippetVariableContext {
    pub document_path: Option<String>,
    pub workspace_path: Option<String>,
    pub line_comment_token: Option<String>,
    pub block_comment_tokens: Option<(String, String)>,
}

/// The metadata as plain values.
pub struct ContextModel {
    pub document_path: Option<Seq<char>>,
    pub workspace_path: Option<Seq<char>>,
    pub line_comment: Option<Seq<char>>,
    pub block_comment: Option<(Seq<char>, Seq<char>)>,
}

pub open spec fn optional_view(s: Option<String>) -> Option<Seq<char>> {
    match s {
        Some(s) => Some(s@),
        None => None,
    }
}

impl View for SnippetVariableContext {
    type V = ContextModel;

    open spec fn view(&self) -> ContextModel {
        ContextModel {
            document_path: optional_view(self.document_path),
            workspace_path: optional_view(self.workspace_path),
            line_comment: optional_view(self.line_comment_token),
            block_comment: match self.block_comment_tokens {
                Some((start, end)) => Some((start@, end@)),
                None => None,
            },
        }
    }
}

impl Default for SnippetVariableContext {
    fn default() -> (context: Self)
        ensures
            context@ == (ContextModel {
                document_path: None,
                workspace_path: None,
                line_comment: None,
                block_comment: None,
            }),
    {
        SnippetVariableContext {
            document_path: None,
            workspace_path: None,
            line_comment_token: None,
            block_comment_tokens: None,
        }
    }
}

impl SnippetVariableContext {
    pub fn new(document_path: &str) -> (context: Self)
        ensures
            context@ == (ContextModel {
                document_path: Some(document_path@),
                workspace_path: None,
                line_comment: None,
                block_comment: None,
            }),
    {
        SnippetVariableContext {
            document_path: Some(document_path.to_owned()),
            workspace_path: None,
            line_comment_token: None,
            block_comment_tokens: None,
        }
    }

    pub fn workspace_root(self, workspace_root: &str) -> (context: Self)
        ensures
            context@ == (ContextModel { workspace_path: Some(workspace_root@), ..self@ }),
    {
        let mut context = self;
        context.workspace_path = Some(workspace_root.to_owned());
        context
    }

    pub fn line_comment(self, token: &str) -> (context: Self)
        ensures
            context@ == (ContextModel { line_comment: Some(token@), ..self@ }),
    {
        let mut context = self;
        context.line_comment_token = Some(token.to_owned());
        context
    }

    pub fn block_comment(self, start: &str, end: &str) -> (context: Self)
        ensures
            context@ == (ContextModel { block_comment: Some((start@, end@)), ..self@ }),
    {
        let mut context = self;
        context.block_comment_tokens = Some((start.to_owned(), end.to_owned()));
        context
    }
}

/// What the paths of a document and a workspace consist of.
pub struct PathParts {
    pub file_name: Option<String>,
    pub directory: Option<String>,
    pub directory_name: Option<String>,
    /// The document's path below the workspace, where it lies in it.
    pub below_workspace: Option<String>,
    pub workspace_name: Option<String>,
}

/// The parts of paths as plain values.
pub struct PathModel {
    pub file_name: Option<Seq<char>>,
    pub directory: Option<Seq<char>>,
    pub directory_name: Option<Seq<char>>,
    pub below_workspace: Option<Seq<char>>,
    pub workspace_name: Option<Seq<char>>,
}

impl View for PathParts {
    type V = PathModel;

    open spec fn view(&self) -> PathModel {
        PathModel {
            file_name: optional_view(self.file_name),
            directory: optional_view(self.directory),
            directory_name: optional_view(self.directory_name),
            below_workspace: optional_view(self.below_workspace),
            workspace_name: optional_view(self.workspace_name),
        }
    }
}

/// A reading of the clock.
pub struct ClockReading {
    pub year: i32,
    pub month: u32,
    pub day: u32,
    pub hour: u32,
    pub minute: u32,
    pub second: u32,
    pub millisecond: u32,
    pub day_name: String,
    pub day_name_short: String,
    pub month_name: String,
    pub month_name_short: String,
    pub seconds_unix: i64,
    pub milliseconds_unix: i64,
    pub offset_seconds: i32,
    pub zone_name: String,
}

/// Whether a component of `path` can end before or begin after position `i`:
/// there is a slash, or nothing.
pub open spec fn is_component_edge(path: Seq<char>, i: int) -> bool {
    i < 0 || i >= path.len() || path[i] == '/'
}

/// Whether the character at `i` is no backslash or colon, no slash behind another
/// slash, and no component `.` of its own.
pub open spec fn is_plain_at(path: Seq<char>, i: int) -> bool {
    &&& path[i] != '\\' && path[i] != ':'
    &&& path[i] == '/' ==> i == 0 || path[i - 1] != '/'
    &&& path[i] == '.' ==> !(is_component_edge(path, i - 1) && is_component_edge(path, i + 1))
}

/// A path of names with one slash between two of them, below the root if a
/// slash begins it. It holds nothing that only some systems separate at, and
/// nothing that is left out when a path is cut into its components.
pub open spec fn is_plain_path(path: Seq<char>) -> bool {
    &&& path.len() > 0
    &&& path.last() != '/'
    &&& forall|i: int| 0 <= i < path.len() ==> #[trigger] is_plain_at(path, i)
}

/// Where the last component of the first `n` characters begins.
pub open spec fn last_component_start(path: Seq<char>, n: int) -> int
    decreases n,
{
    if n <= 0 {
        0
    } else if path[n - 1] == '/' {
        n
    } else {
        last_component_start(path, n - 1)
    }
}

/// The name that a plain path ends in: its last component, unless that is `..`.
pub open spec fn plain_file_name(path: Seq<char>) -> Option<Seq<char>> {
    let name = path.skip(last_component_start(path, path.len() as int));
    if name == seq!['.', '.'] {
        None
    } else {
        Some(name)
    }
}

/// What a plain path lies in: the root or nothing, if it has one name, and
/// otherwise what stands before the last slash.
pub open spec fn plain_parent(path: Seq<char>) -> Seq<char> {
    let start = last_component_start(path, path.len() as int);
    if start <= 1 {
        path.take(start)
    } else {
        path.take(start - 1)
    }
}

/// The root itself, a slash and no more.
pub open spec fn root_path() -> Seq<char> {
    seq!['/']
}

/// A path without one slash that closes it.
pub open spec fn without_end_slash(path: Seq<char>) -> Seq<char> {
    if path.len() > 1 && path.last() == '/' {
        path.drop_last()
    } else {
        path
    }
}

/// What is left of a plain path below `root`, where it lies in it.
pub open spec fn plain_below(path: Seq<char>, root: Seq<char>) -> Option<Seq<char>> {
    let above = if root == root_path() {
        root
    } else {
        without_end_slash(root) + seq!['/']
    };
    if path == without_end_slash(root) {
        Some(Seq::empty())
    } else if above.is_prefix_of(path) {
        Some(path.skip(above.len() as int))
    } else {
        None
    }
}

/// A name that a path can end in is a part of it that is not empty. Neither the
/// empty path nor the root has one; a plain path, closed by a slash or not, has
/// its own.
pub open spec fn is_name_in(path: Seq<char>, name: Option<Seq<char>>) -> bool {
    &&& name matches Some(name) ==> name.len() > 0 && exists|a: int, b: int|
        0 <= a <= b <= path.len() && #[trigger] path.subrange(a, b) == name
    &&& path.len() == 0 || path == root_path() ==> name is None
    &&& is_plain_path(without_end_slash(path)) ==> name == plain_file_name(without_end_slash(path))
}

/// What a path lies in is a shorter path that it starts with. The empty path and
/// the root lie in nothing; a plain path lies in what stands before its last name.
pub open spec fn is_parent_of(path: Seq<char>, parent: Option<Seq<char>>) -> bool {
    &&& path.len() == 0 || path == root_path() ==> parent is None
    &&& parent matches Some(parent) ==> parent.len() < path.len() && path.subrange(
        0,
        parent.len() as int,
    ) == parent
    &&& is_plain_path(path) ==> parent == Some(plain_parent(path))
}

/// What is left of a path below another: of a plain path below the root, or below
/// a plain path that a slash may close, what follows it.
pub open spec fn is_below(path: Seq<char>, root: Seq<char>, below: Option<Seq<char>>) -> bool {
    is_plain_path(path) && (root == root_path() || is_plain_path(without_end_slash(root)))
        ==> below == plain_below(path, root)
}

/// What holds of the parts of a context's paths on every system: those of plain
/// paths are known, those of others as far as all systems agree.
pub open spec fn are_parts_of(context: ContextModel, parts: PathModel) -> bool {
    &&& match context.document_path {
        None => parts.file_name is None && parts.directory is None && parts.directory_name is None
            && parts.below_workspace is None,
        Some(path) => {
            &&& is_name_in(path, parts.file_name)
            &&& is_parent_of(path, parts.directory)
            &&& match parts.directory {
                None => parts.directory_name is None,
                Some(directory) => is_name_in(directory, parts.directory_name),
            }
            &&& context.workspace_path matches Some(root) ==> is_below(
                path,
                root,
                parts.below_workspace,
            )
        },
    }
    &&& match context.workspace_path {
        None => parts.below_workspace is None && parts.workspace_name is None,
        Some(root) => is_name_in(root, parts.workspace_name),
    }
}

/// Calls `std::path::Path::file_name`, the last component of a path where that
/// is a name: a part of the path that is not empty, none of the empty path or
/// the root, and of a plain path what follows its last slash, unless that is
/// `..`. A slash that closes a plain path changes nothing. Which part it is of a
/// path with another separator, a drive or components that are left out depends
/// on the system and is left open.
#[verifier::external_body]
fn path_file_name(path: &str) -> (name: Option<String>)
    ensures
        is_name_in(path@, optional_view(name)),
{
    std::path::Path::new(path).file_name().and_then(|name| name.to_str()).map(String::from)
}

/// Calls `std::path::Path::parent`, a path without its last component: a
/// shorter path that the given one starts with, nothing for the empty path and
/// the root, and of a plain path what stands before its last name. Where it ends
/// in a path with another separator, a drive or components that are left out
/// depends on the system and is left open.
#[verifier::external_body]
fn path_parent(path: &str) -> (parent: Option<String>)
    ensures
        is_parent_of(path@, optional_view(parent)),
{
    std::path::Path::new(path).parent().map(|parent| parent.to_string_lossy().into_owned())
}

/// Calls `std::path::Path::strip_prefix`, which takes whole components off the
/// front of a path: of a plain path below the root or another plain path what
/// follows it, nothing but the empty path below itself, and an error below any
/// other. Whether a path with another separator, a drive or components that are
/// left out lies below depends on the system and is left open.
#[verifier::external_body]
fn path_below(path: &str, root: &str) -> (below: Option<String>)
    ensures
        is_below(path@, root@, optional_view(below)),
{
    let below = std::path::Path::new(path).strip_prefix(root).ok();
    below.map(|below| below.to_string_lossy().into_owned())
}

/// The names of the months.
pub open spec fn month_title(month: u32) -> Seq<char> {
    match month {
        1 => "January"@,
        2 => "February"@,
        3 => "March"@,
        4 => "April"@,
        5 => "May"@,
        6 => "June"@,
        7 => "July"@,
        8 => "August"@,
        9 => "September"@,
        10 => "October"@,
        11 => "November"@,
        _ => "December"@,
    }
}

pub open spec fn is_day_title(name: Seq<char>) -> bool {
    name == "Monday"@ || name == "Tuesday"@ || name == "Wednesday"@ || name == "Thursday"@ || name
        == "Friday"@ || name == "Saturday"@ || name == "Sunday"@
}

/// What holds of every reading of the clock: its parts are in their ranges, a
/// month has its name, and short names are the beginnings of long ones.
pub open spec fn is_reading(now: ClockReading) -> bool {
    &&& 1 <= now.month <= 12
    &&& 1 <= now.day <= 31
    &&& now.hour < 24
    &&& now.minute < 60
    &&& now.second < 60
    &&& now.millisecond < 1000
    &&& now.milliseconds_unix == now.seconds_unix * 1000 + now.millisecond
    &&& -86_400 < now.offset_seconds < 86_400
    &&& is_day_title(now.day_name@)
    &&& now.day_name_short@ == now.day_name@.take(3)
    &&& now.month_name@ == month_title(now.month)
    &&& now.month_name_short@ == now.month_name@.take(3)
}

/// Calls `chrono::Local::now` and reads its parts, with the names that
/// `format` gives. Which they are depends on the system's clock and zone; what is
/// claimed holds of every time in every zone. How the date and the hour come from
/// the seconds and the offset, and what the zone is called, is left unsaid.
#[verifier::external_body]
fn read_clock() -> (now: ClockReading)
    ensures
        is_reading(now),
{
    let now = chrono::Local::now();
    let named = |pattern: &str| now.format(pattern).to_string();
    ClockReading {
        year: chrono::Datelike::year(&now), month: chrono::Datelike::month(&now),
        day: chrono::Datelike::day(&now), hour: chrono::Timelike::hour(&now),
        minute: chrono::Timelike::minute(&now), second: chrono::Timelike::second(&now),
        millisecond: now.timestamp_subsec_millis(), day_name: named("%A"),
        day_name_short: named("%a"), month_name: named("%B"), month_name_short: named("%b"),
        seconds_unix: now.timestamp(), milliseconds_unix: now.timestamp_millis(),
        offset_seconds: now.offset().local_minus_utc(), zone_name: named("%Z"),
    }
}

/// The hexadecimal digits of a number in five groups.
pub open spec fn uuid_text(number: u128) -> Seq<char> {
    let digits = padded(hexadecimal(number as int), 32);
    digits.subrange(0, 8) + seq!['-'] + digits.subrange(8, 12) + seq!['-'] + digits.subrange(12, 16)
        + seq!['-'] + digits.subrange(16, 20) + seq!['-'] + digits.subrange(20, 32)
}

/// A number and its text, in which the digits for the version and the variant
/// are those of a random number.
pub open spec fn is_random_uuid(uuid: (u128, Seq<char>)) -> bool {
    &&& uuid.1 == uuid_text(uuid.0)
    &&& uuid.1.len() == 36
    &&& uuid.1[14] == '4'
    &&& uuid.1[19] == '8' || uuid.1[19] == '9' || uuid.1[19] == 'a' || uuid.1[19] == 'b'
}

/// Calls `uuid::Uuid::new_v4`: a random number, with the version 4 and the
/// variant of such numbers in their places, and its text with hyphens.
#[verifier::external_body]
fn new_uuid() -> (uuid: (u128, String))
    ensures
        is_random_uuid((uuid.0, uuid.1@)),
{
    let uuid = uuid::Uuid::new_v4();
    (uuid.as_u128(), uuid.to_string())
}

/// `s` without the bytes behind the limit, on a boundary.
pub open spec fn truncated(s: Seq<char>) -> Seq<char> {
    let t = encode_utf8(s);
    if t.len() <= MAX_VARIABLE_VALUE_BYTES {
        s
    } else {
        decode_utf8(t.subrange(0, text::floor_boundary(t, MAX_VARIABLE_VALUE_BYTES as int)))
    }
}

fn truncate_utf8(value: String) -> (result: String)
    ensures
        result@ == truncated(value@),
{
    let ghost t = encode_utf8(value@);
    let bytes = value.as_str().as_bytes();
    if bytes.len() <= MAX_VARIABLE_VALUE_BYTES {
        return value;
    }
    proof {
        text::lemma_floor_boundary(t, MAX_VARIABLE_VALUE_BYTES as int);
    }
    let end: usize = chars::previous_boundary(bytes, MAX_VARIABLE_VALUE_BYTES + 1);
    let result = text::slice_text(value.as_str(), 0, end);
    proof {
        encode_utf8_decode_utf8(result@);
    }
    result
}

/// The first `n` values under their names, later ones in place of earlier.
pub open spec fn values_of(values: Seq<(String, String)>, n: int) -> Map<Seq<char>, Seq<char>>
    decreases n,
{
    if n <= 0 {
        Map::empty()
    } else {
        values_of(values, n - 1).insert(values[n - 1].0@, values[n - 1].1@)
    }
}

/// The values of variables under their names.
pub struct SnippetVariables {
    values: Vec<(String, String)>,
}

impl View for SnippetVariables {
    type V = Map<Seq<char>, Seq<char>>;

    closed spec fn view(&self) -> Map<Seq<char>, Seq<char>> {
        values_of(self.values@, self.values@.len() as int)
    }
}

pub open spec fn with_value(
    values: Map<Seq<char>, Seq<char>>,
    name: Seq<char>,
    value: Seq<char>,
) -> Map<Seq<char>, Seq<char>> {
    values.insert(name, truncated(value))
}

pub open spec fn with_optional(
    values: Map<Seq<char>, Seq<char>>,
    name: Seq<char>,
    value: Option<Seq<char>>,
) -> Map<Seq<char>, Seq<char>> {
    match value {
        Some(value) => with_value(values, name, value),
        None => values,
    }
}

pub open spec fn with_nonempty(
    values: Map<Seq<char>, Seq<char>>,
    name: Seq<char>,
    value: Seq<char>,
) -> Map<Seq<char>, Seq<char>> {
    if value.len() > 0 {
        with_value(values, name, value)
    } else {
        values
    }
}

/// The number of the first characters of `s` that are left once characters
/// `c` at the end go.
pub open spec fn end_without(s: Seq<u8>, c: u8, n: int) -> int
    decreases n,
{
    if n > 0 && s[n - 1] == c {
        end_without(s, c, n - 1)
    } else {
        n
    }
}

/// What `row` reads, without its line ending.
pub open spec fn row_text(t: Seq<u8>, row: int) -> Seq<char> {
    let line = text::line_bytes(t, row);
    decode_utf8(line.take(end_without(line, 13, line.len() as int)))
}

/// The word at the offset, or nothing.
pub open spec fn word_text(t: Seq<u8>, offset: int) -> Seq<char> {
    match chars::word_range(t, offset) {
        Some((start, end)) => decode_utf8(t.subrange(start, end)),
        None => Seq::empty(),
    }
}

/// What the clipboard holds, or nothing.
pub open spec fn copied_text(clipboard: Option<&str>) -> Seq<char> {
    match clipboard {
        Some(clipboard) => clipboard@,
        None => Seq::empty(),
    }
}

/// The variables that the document and the selection give.
pub open spec fn document_values(
    t: Seq<u8>,
    cursor: int,
    selection: Seq<char>,
    clipboard: Seq<char>,
) -> Map<Seq<char>, Seq<char>> {
    let row = text::row_at(t, cursor);
    let m = with_nonempty(Map::empty(), "SELECTION"@, selection);
    let m = with_nonempty(m, "TM_SELECTED_TEXT"@, selection);
    let m = with_nonempty(m, "CLIPBOARD"@, clipboard);
    let m = with_value(m, "TM_CURRENT_LINE"@, row_text(t, row));
    let m = with_nonempty(
        m,
        "TM_CURRENT_WORD"@,
        word_text(
            t,
            if cursor < t.len() {
                cursor
            } else {
                t.len() as int
            },
        ),
    );
    let m = with_value(m, "TM_LINE_INDEX"@, chars::decimal(row));
    let m = with_value(m, "TM_LINE_NUMBER"@, chars::decimal(row + 1));
    let m = with_value(m, "CURSOR_INDEX"@, "0"@);
    with_value(m, "CURSOR_NUMBER"@, "1"@)
}

/// Index of the last of the first `n` characters that is a dot.
pub open spec fn last_dot(s: Seq<char>, n: int) -> Option<int>
    decreases n,
{
    if n <= 0 {
        None
    } else if s[n - 1] == '.' {
        Some(n - 1)
    } else {
        last_dot(s, n - 1)
    }
}

/// A file name without its extension.
pub open spec fn base_name(name: Seq<char>) -> Seq<char> {
    match last_dot(name, name.len() as int) {
        Some(at) => if at > 0 {
            name.take(at)
        } else {
            name
        },
        None => name,
    }
}

/// The variables that the paths give.
pub open spec fn path_values(
    m: Map<Seq<char>, Seq<char>>,
    context: ContextModel,
    parts: PathModel,
) -> Map<Seq<char>, Seq<char>> {
    let m = match context.document_path {
        Some(path) => {
            let m = with_value(m, "TM_FILEPATH"@, path);
            let m = with_optional(m, "TM_FILENAME"@, parts.file_name);
            let m = with_optional(
                m,
                "TM_FILENAME_BASE"@,
                match parts.file_name {
                    Some(name) => Some(base_name(name)),
                    None => None,
                },
            );
            let m = match parts.directory {
                Some(directory) => with_optional(
                    with_value(m, "TM_DIRECTORY"@, directory),
                    "TM_DIRECTORY_BASE"@,
                    parts.directory_name,
                ),
                None => m,
            };
            with_value(
                m,
                "RELATIVE_FILEPATH"@,
                match parts.below_workspace {
                    Some(below) => if context.workspace_path is Some {
                        below
                    } else {
                        path
                    },
                    None => path,
                },
            )
        },
        None => m,
    };
    match context.workspace_path {
        Some(root) => with_optional(
            with_value(m, "WORKSPACE_FOLDER"@, root),
            "WORKSPACE_NAME"@,
            parts.workspace_name,
        ),
        None => m,
    }
}

/// The variables that the language gives.
pub open spec fn comment_values(m: Map<Seq<char>, Seq<char>>, context: ContextModel) -> Map<
    Seq<char>,
    Seq<char>,
> {
    let m = with_optional(m, "LINE_COMMENT"@, context.line_comment);
    match context.block_comment {
        Some((start, end)) => with_value(
            with_value(m, "BLOCK_COMMENT_START"@, start),
            "BLOCK_COMMENT_END"@,
            end,
        ),
        None => m,
    }
}

/// `n` zeros.
pub open spec fn zeros(n: int) -> Seq<char> {
    Seq::new(n as nat, |i: int| '0')
}

/// `digits` with zeros in front up to the width.
pub open spec fn padded(digits: Seq<char>, width: int) -> Seq<char> {
    if digits.len() < width {
        zeros(width - digits.len()) + digits
    } else {
        digits
    }
}

/// The decimal notation of `n`, with zeros up to the width, a sign included.
pub open spec fn signed_padded(n: int, width: int) -> Seq<char> {
    if n < 0 {
        seq!['-'] + padded(chars::decimal(-n), width - 1)
    } else {
        padded(chars::decimal(n), width)
    }
}

/// The remainder with the sign of `n`.
pub open spec fn remainder(n: int, by: int) -> int {
    if n < 0 {
        -((-n) % by)
    } else {
        n % by
    }
}

/// The hexadecimal digits of `n`.
pub open spec fn hexadecimal(n: int) -> Seq<char>
    decreases n,
{
    if n < 16 {
        seq![hex_digit(n)]
    } else {
        hexadecimal(n / 16).push(hex_digit(n % 16))
    }
}

pub open spec fn hex_digit(d: int) -> char {
    if d < 10 {
        (d + 48) as char
    } else {
        (d + 87) as char
    }
}

/// The offset of a zone as hours and minutes with a sign.
pub open spec fn zone_offset(seconds: int) -> Seq<char> {
    let absolute = if seconds < 0 {
        -seconds
    } else {
        seconds
    };
    (if seconds < 0 {
        seq!['-']
    } else {
        seq!['+']
    }) + padded(chars::decimal(absolute / 3600), 2) + seq![':'] + padded(
        chars::decimal((absolute % 3600) / 60),
        2,
    )
}

/// The variables that a reading of the clock gives.
pub open spec fn time_values(m: Map<Seq<char>, Seq<char>>, now: ClockReading) -> Map<
    Seq<char>,
    Seq<char>,
> {
    let m = with_value(m, "CURRENT_YEAR"@, signed_padded(now.year as int, 4));
    let m = with_value(
        m,
        "CURRENT_YEAR_SHORT"@,
        signed_padded(remainder(now.year as int, 100), 2),
    );
    let m = with_value(m, "CURRENT_MONTH"@, padded(chars::decimal(now.month as int), 2));
    let m = with_value(m, "CURRENT_DATE"@, padded(chars::decimal(now.day as int), 2));
    let m = with_value(m, "CURRENT_HOUR"@, padded(chars::decimal(now.hour as int), 2));
    let m = with_value(m, "CURRENT_MINUTE"@, padded(chars::decimal(now.minute as int), 2));
    let m = with_value(m, "CURRENT_SECOND"@, padded(chars::decimal(now.second as int), 2));
    let m = with_value(
        m,
        "CURRENT_MILLISECOND"@,
        padded(chars::decimal(now.millisecond as int), 3),
    );
    let m = with_value(m, "CURRENT_DAY_NAME"@, now.day_name@);
    let m = with_value(m, "CURRENT_DAY_NAME_SHORT"@, now.day_name_short@);
    let m = with_value(m, "CURRENT_MONTH_NAME"@, now.month_name@);
    let m = with_value(m, "CURRENT_MONTH_NAME_SHORT"@, now.month_name_short@);
    let m = with_value(m, "CURRENT_SECONDS_UNIX"@, signed_padded(now.seconds_unix as int, 0));
    let m = with_value(
        m,
        "CURRENT_MILLISECONDS_UNIX"@,
        signed_padded(now.milliseconds_unix as int, 0),
    );
    let m = with_value(m, "CURRENT_TIMEZONE_OFFSET"@, zone_offset(now.offset_seconds as int));
    with_value(m, "CURRENT_TIMEZONE_NAME"@, now.zone_name@)
}

/// The variables that a random number gives.
pub open spec fn random_values(
    m: Map<Seq<char>, Seq<char>>,
    seed: int,
    uuid: Seq<char>,
) -> Map<Seq<char>, Seq<char>> {
    let m = with_value(m, "RANDOM"@, padded(chars::decimal(seed % 1_000_000), 6));
    let m = with_value(m, "RANDOM_HEX"@, padded(hexadecimal(seed % 0x100_0000), 6));
    with_value(m, "UUID"@, uuid)
}

/// All variables.
pub open spec fn completion_values(
    context: ContextModel,
    t: Seq<u8>,
    cursor: int,
    selection: Seq<char>,
    clipboard: Seq<char>,
    parts: PathModel,
    now: ClockReading,
    uuid: (u128, Seq<char>),
) -> Map<Seq<char>, Seq<char>> {
    let m = document_values(t, cursor, selection, clipboard);
    let m = path_values(m, context, parts);
    let m = comment_values(m, context);
    let m = time_values(m, now);
    random_values(m, uuid.0 as int, uuid.1)
}

fn to_decimal_wide(n: u128) -> (s: String)
    ensures
        s@ == chars::decimal(n as int),
    decreases n,
{
    if n < 10 {
        let mut s = String::new();
        let c = (n as u8 + 48) as char;
        chars::push_char(&mut s, c);
        assert(s@ =~= chars::decimal(n as int));
        s
    } else {
        let mut s = to_decimal_wide(n / 10);
        let c = ((n % 10) as u8 + 48) as char;
        chars::push_char(&mut s, c);
        s
    }
}

fn to_hexadecimal(n: u128) -> (s: String)
    ensures
        s@ == hexadecimal(n as int),
    decreases n,
{
    let d: u8 = (n % 16) as u8;
    let c = if d < 10 {
        (d + 48) as char
    } else {
        (d + 87) as char
    };
    if n < 16 {
        let mut s = String::new();
        chars::push_char(&mut s, c);
        assert(s@ =~= hexadecimal(n as int));
        s
    } else {
        let mut s = to_hexadecimal(n / 16);
        chars::push_char(&mut s, c);
        s
    }
}

pub(crate) fn pad(digits: String, width: usize) -> (s: String)
    ensures
        s@ == padded(digits@, width as int),
{
    let count: usize = chars::chars_of(digits.as_str()).len();
    if count >= width {
        return digits;
    }
    let mut s = String::new();
    let mut i: usize = 0;
    assert(s@ =~= zeros(0));
    while i < width - count
        invariant
            count < width,
            i <= width - count,
            s@ == zeros(i as int),
        decreases width - count - i,
    {
        chars::push_char(&mut s, '0');
        assert(s@ =~= zeros(i + 1));
        i = i + 1;
    }
    text::push_text(&mut s, digits.as_str());
    s
}

fn pad_signed(n: i64, width: usize) -> (s: String)
    ensures
        s@ == signed_padded(n as int, width as int),
{
    if n < 0 {
        let absolute: u128 = (-(n as i128)) as u128;
        let digits = to_decimal_wide(absolute);
        let narrower: usize = if width > 0 {
            width - 1
        } else {
            0
        };
        let rest = pad(digits, narrower);
        let mut s = String::new();
        chars::push_char(&mut s, '-');
        assert(s@ =~= seq!['-']);
        text::push_text(&mut s, rest.as_str());
        s
    } else {
        pad(to_decimal_wide(n as u128), width)
    }
}

/// What can be known of a completion: the values that some reading of the paths,
/// of the clock and of a random number gives.
pub open spec fn are_known(
    context: ContextModel,
    t: Seq<u8>,
    cursor: int,
    selection: Seq<char>,
    clipboard: Seq<char>,
    known: Map<Seq<char>, Seq<char>>,
) -> bool {
    exists|parts: PathModel, now: ClockReading, uuid: (u128, Seq<char>)|
        is_random_uuid(uuid) && is_reading(now) && are_parts_of(context, parts) && known
            == #[trigger] completion_values(
            context,
            t,
            cursor,
            selection,
            clipboard,
            parts,
            now,
            uuid,
        )
}

impl SnippetVariables {
    /// No variables.
    pub fn new() -> (variables: Self)
        ensures
            variables@ == Map::<Seq<char>, Seq<char>>::empty(),
    {
        SnippetVariables { values: Vec::new() }
    }

    /// The value of a variable.
    pub fn resolve(&self, name: &str) -> (value: Option<&str>)
        ensures
            match value {
                Some(value) => self@.dom().contains(name@) && self@[name@] == value@,
                None => !self@.dom().contains(name@),
            },
    {
        let mut n: usize = self.values.len();
        while n > 0
            invariant
                n <= self.values@.len(),
                values_of(self.values@, n as int).dom().contains(name@) == self@.dom().contains(
                    name@,
                ),
                self@.dom().contains(name@) ==> values_of(self.values@, n as int)[name@]
                    == self@[name@],
            decreases n,
        {
            if chars::same_text(self.values[n - 1].0.as_str(), name) {
                return Some(self.values[n - 1].1.as_str());
            }
            n = n - 1;
        }
        None
    }

    fn insert(&mut self, name: &str, value: String)
        ensures
            final(self)@ == with_value(old(self)@, name@, value@),
    {
        let ghost before = self.values@;
        let kept = truncate_utf8(value);
        self.values.push((name.to_owned(), kept));
        proof {
            lemma_values_of(before, self.values@, before.len() as int);
        }
    }

    fn insert_nonempty(&mut self, name: &str, value: String)
        ensures
            final(self)@ == with_nonempty(old(self)@, name@, value@),
    {
        if chars::chars_of(value.as_str()).len() > 0 {
            self.insert(name, value);
        }
    }

    fn insert_optional(&mut self, name: &str, value: &Option<String>)
        ensures
            final(self)@ == with_optional(old(self)@, name@, optional_view(*value)),
    {
        if let Some(value) = value {
            self.insert(name, value.clone());
        }
    }

    fn insert_document_values(
        &mut self,
        text: &Rope,
        cursor: usize,
        selection: &str,
        clipboard: Option<&str>,
    )
        requires
            old(self)@ == Map::<Seq<char>, Seq<char>>::empty(),
        ensures
            final(self)@ == document_values(
                rope::rope_bytes(*text),
                cursor as int,
                selection@,
                copied_text(clipboard),
            ),
    {
        let held = rope::rope_to_string(text);
        let document = Document::new(rope::rope_to_string(text));
        let ghost t = rope::rope_bytes(*text);
        proof {
            document.lemma_wf();
        }
        self.insert_nonempty("SELECTION", selection.to_owned());
        self.insert_nonempty("TM_SELECTED_TEXT", selection.to_owned());
        let copied = match clipboard {
            Some(clipboard) => clipboard.to_owned(),
            None => String::new(),
        };
        assert(copied@ =~= copied_text(clipboard));
        self.insert_nonempty("CLIPBOARD", copied);
        let row: usize = document.offset_to_point(cursor).row;
        self.insert("TM_CURRENT_LINE", read_row(&document, row));
        let at: usize = if cursor < document.len() {
            cursor
        } else {
            document.len()
        };
        let word = match chars::find_word(held.as_str(), at) {
            Some((start, end)) => {
                let word = text::slice_text(held.as_str(), start, end);
                proof {
                    encode_utf8_decode_utf8(word@);
                }
                word
            },
            None => String::new(),
        };
        assert(word@ =~= word_text(t, at as int));
        self.insert_nonempty("TM_CURRENT_WORD", word);
        self.insert("TM_LINE_INDEX", chars::to_decimal(row));
        self.insert("TM_LINE_NUMBER", chars::to_decimal(row + 1));
        self.insert("CURSOR_INDEX", "0".to_owned());
        self.insert("CURSOR_NUMBER", "1".to_owned());
    }

    fn insert_path_values(&mut self, context: &SnippetVariableContext, parts: &PathParts)
        ensures
            final(self)@ == path_values(old(self)@, context@, parts@),
    {
        if let Some(path) = &context.document_path {
            self.insert("TM_FILEPATH", path.clone());
            self.insert_optional("TM_FILENAME", &parts.file_name);
            let base = match &parts.file_name {
                Some(name) => Some(find_base_name(name.as_str())),
                None => None,
            };
            self.insert_optional("TM_FILENAME_BASE", &base);
            if let Some(directory) = &parts.directory {
                self.insert("TM_DIRECTORY", directory.clone());
                self.insert_optional("TM_DIRECTORY_BASE", &parts.directory_name);
            }
            let relative = match &parts.below_workspace {
                Some(below) => {
                    if context.workspace_path.is_some() {
                        below.clone()
                    } else {
                        path.clone()
                    }
                },
                None => path.clone(),
            };
            self.insert("RELATIVE_FILEPATH", relative);
        }
        if let Some(root) = &context.workspace_path {
            self.insert("WORKSPACE_FOLDER", root.clone());
            self.insert_optional("WORKSPACE_NAME", &parts.workspace_name);
        }
    }

    fn insert_comment_values(&mut self, context: &SnippetVariableContext)
        ensures
            final(self)@ == comment_values(old(self)@, context@),
    {
        self.insert_optional("LINE_COMMENT", &context.line_comment_token);
        if let Some((start, end)) = &context.block_comment_tokens {
            self.insert("BLOCK_COMMENT_START", start.clone());
            self.insert("BLOCK_COMMENT_END", end.clone());
        }
    }

    fn insert_time_values(&mut self, now: &ClockReading)
        ensures
            final(self)@ == time_values(old(self)@, *now),
    {
        self.insert("CURRENT_YEAR", pad_signed(now.year as i64, 4));
        let short: i64 = if now.year < 0 {
            -((-(now.year as i64)) % 100)
        } else {
            now.year as i64 % 100
        };
        self.insert("CURRENT_YEAR_SHORT", pad_signed(short, 2));
        self.insert("CURRENT_MONTH", pad(to_decimal_wide(now.month as u128), 2));
        self.insert("CURRENT_DATE", pad(to_decimal_wide(now.day as u128), 2));
        self.insert("CURRENT_HOUR", pad(to_decimal_wide(now.hour as u128), 2));
        self.insert("CURRENT_MINUTE", pad(to_decimal_wide(now.minute as u128), 2));
        self.insert("CURRENT_SECOND", pad(to_decimal_wide(now.second as u128), 2));
        self.insert("CURRENT_MILLISECOND", pad(to_decimal_wide(now.millisecond as u128), 3));
        self.insert("CURRENT_DAY_NAME", now.day_name.clone());
        self.insert("CURRENT_DAY_NAME_SHORT", now.day_name_short.clone());
        self.insert("CURRENT_MONTH_NAME", now.month_name.clone());
        self.insert("CURRENT_MONTH_NAME_SHORT", now.month_name_short.clone());
        self.insert("CURRENT_SECONDS_UNIX", pad_signed(now.seconds_unix, 0));
        self.insert("CURRENT_MILLISECONDS_UNIX", pad_signed(now.milliseconds_unix, 0));
        self.insert("CURRENT_TIMEZONE_OFFSET", write_zone_offset(now.offset_seconds));
        self.insert("CURRENT_TIMEZONE_NAME", now.zone_name.clone());
    }

    fn insert_random_values(&mut self, seed: u128, uuid: &str)
        ensures
            final(self)@ == random_values(old(self)@, seed as int, uuid@),
    {
        self.insert("RANDOM", pad(to_decimal_wide(seed % 1_000_000), 6));
        self.insert("RANDOM_HEX", pad(to_hexadecimal(seed % 0x100_0000), 6));
        self.insert("UUID", uuid.to_owned());
    }

    /// The variables for a completion, given the parts of the paths, a reading
    /// of the clock and a random number.
    pub fn from_readings(
        context: &SnippetVariableContext,
        text: &Rope,
        cursor: usize,
        selection: &str,
        clipboard: Option<&str>,
        parts: &PathParts,
        now: &ClockReading,
        uuid: (u128, &str),
    ) -> (variables: Self)
        ensures
            variables@ == completion_values(
                context@,
                rope::rope_bytes(*text),
                cursor as int,
                selection@,
                copied_text(clipboard),
                parts@,
                *now,
                (uuid.0, uuid.1@),
            ),
    {
        let mut variables = SnippetVariables::new();
        variables.insert_document_values(text, cursor, selection, clipboard);
        variables.insert_path_values(context, parts);
        variables.insert_comment_values(context);
        variables.insert_time_values(now);
        variables.insert_random_values(uuid.0, uuid.1);
        variables
    }

    /// The variables for a completion that is accepted now.
    pub fn for_completion(
        context: &SnippetVariableContext,
        text: &Rope,
        cursor: usize,
        selection: &str,
        clipboard: Option<&str>,
    ) -> (variables: Self)
        ensures
            are_known(
                context@,
                rope::rope_bytes(*text),
                cursor as int,
                selection@,
                copied_text(clipboard),
                variables@,
            ),
    {
        let parts = read_paths(context);
        let now = read_clock();
        let (seed, uuid) = new_uuid();
        Self::from_readings(
            context,
            text,
            cursor,
            selection,
            clipboard,
            &parts,
            &now,
            (seed, uuid.as_str()),
        )
    }
}

/// What the paths of the context consist of on this system.
fn read_paths(context: &SnippetVariableContext) -> (parts: PathParts)
    ensures
        are_parts_of(context@, parts@),
{
    let mut parts = PathParts {
        file_name: None,
        directory: None,
        directory_name: None,
        below_workspace: None,
        workspace_name: None,
    };
    if let Some(path) = &context.document_path {
        parts.file_name = path_file_name(path.as_str());
        parts.directory = path_parent(path.as_str());
        if let Some(directory) = &parts.directory {
            parts.directory_name = path_file_name(directory.as_str());
        }
        if let Some(root) = &context.workspace_path {
            parts.below_workspace = path_below(path.as_str(), root.as_str());
        }
    }
    if let Some(root) = &context.workspace_path {
        parts.workspace_name = path_file_name(root.as_str());
    }
    parts
}

proof fn lemma_values_of(a: Seq<(String, String)>, b: Seq<(String, String)>, n: int)
    requires
        n <= a.len(),
        n <= b.len(),
        forall|i: int| 0 <= i < n ==> #[trigger] a[i] == b[i],
    ensures
        values_of(a, n) == values_of(b, n),
    decreases n,
{
    if n > 0 {
        lemma_values_of(a, b, n - 1);
        assert(a[n - 1] == b[n - 1]);
    }
}

fn write_zone_offset(seconds: i32) -> (s: String)
    ensures
        s@ == zone_offset(seconds as int),
{
    let wide: i64 = seconds as i64;
    let absolute: u128 = (if wide < 0 {
        -wide
    } else {
        wide
    }) as u128;
    let mut s = String::new();
    chars::push_char(
        &mut s,
        if seconds < 0 {
            '-'
        } else {
            '+'
        },
    );
    let ghost sign = s@;
    let hours = pad(to_decimal_wide(absolute / 3600), 2);
    let minutes = pad(to_decimal_wide((absolute % 3600) / 60), 2);
    text::push_text(&mut s, hours.as_str());
    let ghost before = s@;
    chars::push_char(&mut s, ':');
    assert(s@ =~= before + seq![':']);
    text::push_text(&mut s, minutes.as_str());
    proof {
        assert(sign =~= (if seconds < 0 {
            seq!['-']
        } else {
            seq!['+']
        }));
    }
    s
}

fn find_base_name(name: &str) -> (base: String)
    ensures
        base@ == base_name(name@),
{
    let chars = chars::chars_of(name);
    let mut n: usize = chars.len();
    while n > 0 && chars[n - 1] != '.'
        invariant
            n <= chars@.len(),
            chars@ == name@,
            last_dot(name@, name@.len() as int) == last_dot(name@, n as int),
        decreases n,
    {
        n = n - 1;
    }
    if n > 1 {
        let mut base = String::new();
        let mut i: usize = 0;
        while i < n - 1
            invariant
                1 < n <= chars@.len(),
                i <= n - 1,
                base@ == chars@.take(i as int),
            decreases n - 1 - i,
        {
            chars::push_char(&mut base, chars[i]);
            assert(base@ =~= chars@.take(i + 1));
            i = i + 1;
        }
        base
    } else {
        name.to_owned()
    }
}

/// What `row` reads, without its line ending.
fn read_row(document: &Document, row: usize) -> (s: String)
    requires
        document.wf(),
        row < text::line_count(document.bytes()),
    ensures
        s@ == row_text(document.bytes(), row as int),
{
    let ghost t = document.bytes();
    let ghost line = text::line_bytes(t, row as int);
    let start: usize = document.line_start_offset(row);
    let stop: usize = document.line_end_offset(row);
    let bytes = document.as_bytes();
    proof {
        document.lemma_wf();
        text::lemma_line_boundaries(t, row as int);
    }
    let mut end: usize = stop;
    while end > start && bytes[end - 1] == 13
        invariant
            start <= end <= stop <= bytes@.len(),
            bytes@ == t,
            valid_utf8(t),
            line == t.subrange(start as int, stop as int),
            text::is_boundary(t, end as int),
            end_without(line, 13, line.len() as int) == end_without(line, 13, end - start),
        decreases end,
    {
        assert(line[end - start - 1] == t[end - 1]);
        proof {
            text::lemma_boundary_after_ascii(t, end - 1);
        }
        end = end - 1;
    }
    proof {
        if end > start {
            assert(line[end - start - 1] == t[end - 1]);
        }
        assert(line.take(end - start) =~= t.subrange(start as int, end as int));
    }
    let s = document.slice(start, end);
    proof {
        encode_utf8_decode_utf8(s@);
    }
    s
}

} // verus!
