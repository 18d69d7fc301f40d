//! The configuration of a run: where to scan, where to write, and which
//! patterns to ignore, those of the caller first and then those of an
//! optional overlay in JSON5.

use crate::path::{file_name_or, name_or};
use crate::text::{chars_of, clone_strings, is_text, opt_text, string_views};
use vstd::prelude::*;

verus! {

/// `serde_json::Value`: a JSON value as a tree, as the parser builds it. It
/// is turned into a `Json` at once and not read otherwise.
#[verifier::external_type_specification]
#[verifier::external_body]
pub struct ExJsonValue(serde_json::Value);

/// `json5::Error`: why a text is no JSON5. Nothing is known of what it
/// holds but what its `Display` writes.
#[verifier::external_type_specification]
#[verifier::external_body]
pub struct ExOverlayError(json5::Error);

/// A JSON value.
#[derive(Debug)]
pub enum Json {
    Null,
    Bool(bool),
    /// A number, in the digits in which JSON writes it.
    Number(String),
    Text(String),
    Array(Vec<Json>),
    /// An object: its members, key and value. Where a key stands more than
    /// once, the first member of that key counts.
    Object(Vec<(String, Json)>),
}

/// The name of the project's own ignore file where the caller names none.
pub const DEFAULT_IGNORE_FILENAME: &'static str = ".mnemosyne.ignore";

/// The key of the overlay under which its ignore patterns stand.
pub const OVERLAY_IGNORE_KEY: &'static str = "ignore";

/// The name given to a project whose root has no file name.
pub const UNKNOWN_PROJECT: &'static str = "unknown";

/// How deep the arrays and objects of an overlay may nest. Parsing descends
/// once for each level.
pub const MAX_OVERLAY_NESTING: usize = 128;

/// Where in the text of an overlay a reader stands: in plain text, behind a
/// slash that may begin a comment, in a string in single or double quotes,
/// behind a backslash in such a string, in a comment up to the end of the
/// line, or in a comment between `/*` and `*/`, there perhaps behind a star.
#[derive(Clone, Copy, Debug)]
pub enum Lex {
    Plain,
    Slash,
    Single,
    SingleEscape,
    Double,
    DoubleEscape,
    Line,
    Block,
    BlockStar,
}

/// What a run is configured with.
#[derive(Clone, Debug)]
pub struct Config {
    /// The directory to scan.
    pub root: String,
    /// The name of the manifest file, below the root.
    pub output_file: String,
    /// The ignore patterns besides those of the ignore files.
    pub extra_ignores: Vec<String>,
    /// The name of the project's own ignore file.
    pub ignore_filename: String,
    /// Whether the manifest gets dependency hints.
    pub dependency_graph: bool,
}

/// What a `Config` stands for.
pub struct ConfigView {
    pub root: Seq<char>,
    pub output_file: Seq<char>,
    pub extra_ignores: Seq<Seq<char>>,
    pub ignore_filename: Seq<char>,
    pub dependency_graph: bool,
}

impl View for Config {
    type V = ConfigView;

    open spec fn view(&self) -> ConfigView {
        ConfigView {
            root: self.root@,
            output_file: self.output_file@,
            extra_ignores: string_views(self.extra_ignores@),
            ignore_filename: self.ignore_filename@,
            dependency_graph: self.dependency_graph,
        }
    }
}

/// Why a configuration could not be loaded.
#[derive(Debug)]
pub enum ConfigError {
    /// The overlay is no JSON5; the text says where and why.
    Malformed(String),
    /// The arrays and objects of the overlay nest deeper than
    /// `MAX_OVERLAY_NESTING`.
    TooDeep,
}

/// A character that ends a line in JSON5.
pub open spec fn is_line_end(c: char) -> bool {
    c == '\n' || c == '\r' || c == '\u{2028}' || c == '\u{2029}'
}

/// Whether `c`, met in state `lex`, is read as plain text: outside strings
/// and comments, a slash that begins no comment included.
pub open spec fn reads_plain(lex: Lex, c: char) -> bool {
    lex is Plain || (lex is Slash && c != '/' && c != '*')
}

/// The state behind `c`, met in state `lex`. A quote in plain text begins a
/// string, which the same quote ends unless a backslash stands before it;
/// `//` begins a comment that the end of the line ends, `/*` one that `*/`
/// ends.
pub open spec fn lex_step(lex: Lex, c: char) -> Lex {
    if reads_plain(lex, c) {
        if c == '"' {
            Lex::Double
        } else if c == '\'' {
            Lex::Single
        } else if c == '/' {
            Lex::Slash
        } else {
            Lex::Plain
        }
    } else {
        match lex {
            Lex::Plain => Lex::Plain,
            Lex::Slash => if c == '/' {
                Lex::Line
            } else {
                Lex::Block
            },
            Lex::Single => if c == '\'' {
                Lex::Plain
            } else if c == '\\' {
                Lex::SingleEscape
            } else {
                Lex::Single
            },
            Lex::SingleEscape => Lex::Single,
            Lex::Double => if c == '"' {
                Lex::Plain
            } else if c == '\\' {
                Lex::DoubleEscape
            } else {
                Lex::Double
            },
            Lex::DoubleEscape => Lex::Double,
            Lex::Line => if is_line_end(c) {
                Lex::Plain
            } else {
                Lex::Line
            },
            Lex::Block => if c == '*' {
                Lex::BlockStar
            } else {
                Lex::Block
            },
            Lex::BlockStar => if c == '/' {
                Lex::Plain
            } else if c == '*' {
                Lex::BlockStar
            } else {
                Lex::Block
            },
        }
    }
}

/// The number of open arrays and objects behind `c`, met in state `lex` with
/// `depth` of them open: one more behind an opening bracket or brace in
/// plain text, one less behind a closing one.
pub open spec fn depth_step(lex: Lex, depth: nat, c: char) -> nat {
    if reads_plain(lex, c) && (c == '[' || c == '{') {
        depth + 1
    } else if reads_plain(lex, c) && (c == ']' || c == '}') && depth > 0 {
        (depth - 1) as nat
    } else {
        depth
    }
}

/// The state at the end of `s`.
pub open spec fn lex_after(s: Seq<char>) -> Lex
    decreases s.len(),
{
    if s.len() == 0 {
        Lex::Plain
    } else {
        lex_step(lex_after(s.drop_last()), s.last())
    }
}

/// The number of arrays and objects that are open at the end of `s`.
pub open spec fn depth_after(s: Seq<char>) -> nat
    decreases s.len(),
{
    if s.len() == 0 {
        0
    } else {
        depth_step(lex_after(s.drop_last()), depth_after(s.drop_last()), s.last())
    }
}

/// How deep the arrays and objects of `s` nest: the most that are open at
/// any place in it, brackets and braces in strings and comments not counted.
pub open spec fn nesting(s: Seq<char>) -> nat
    decreases s.len(),
{
    if s.len() == 0 {
        0
    } else if depth_after(s) > nesting(s.drop_last()) {
        depth_after(s)
    } else {
        nesting(s.drop_last())
    }
}

/// The configuration made of the caller's values and the patterns of the
/// overlay: the caller's patterns first, then those of the overlay, each
/// list in its order.
pub open spec fn configured(
    root: Seq<char>,
    output_path: Seq<char>,
    extra: Seq<Seq<char>>,
    overlay: Seq<Seq<char>>,
    ignore_file: Option<Seq<char>>,
    dependency_graph: bool,
) -> ConfigView {
    ConfigView {
        root,
        output_file: output_path,
        extra_ignores: extra + overlay,
        ignore_filename: match ignore_file {
            Some(name) => name,
            None => DEFAULT_IGNORE_FILENAME@,
        },
        dependency_graph,
    }
}

/// The value of the first of `members` whose key is `key`, if there is one.
pub open spec fn member_of(members: Seq<(String, Json)>, key: Seq<char>) -> Option<Json>
    decreases members.len(),
{
    if members.len() == 0 {
        None
    } else if members[0].0@ == key {
        Some(members[0].1)
    } else {
        member_of(members.skip(1), key)
    }
}

/// The strings among `items`, in their order; what is no string is passed
/// over.
pub open spec fn texts_of(items: Seq<Json>) -> Seq<Seq<char>>
    decreases items.len(),
{
    if items.len() == 0 {
        Seq::<Seq<char>>::empty()
    } else {
        match items.last() {
            Json::Text(text) => texts_of(items.drop_last()).push(text@),
            _ => texts_of(items.drop_last()),
        }
    }
}

/// The ignore patterns that an overlay gives: the strings of the array that
/// is its member `ignore`. An overlay that is no object, or has no such
/// member, or one that is no array, gives none.
pub open spec fn overlay_patterns(overlay: Json) -> Seq<Seq<char>> {
    match overlay {
        Json::Object(members) => match member_of(members@, OVERLAY_IGNORE_KEY@) {
            Some(Json::Array(items)) => texts_of(items@),
            _ => Seq::<Seq<char>>::empty(),
        },
        _ => Seq::<Seq<char>>::empty(),
    }
}

/// The JSON value that `raw` is as JSON5, or `None` where it is none.
pub uninterp spec fn parsed_overlay(raw: Seq<char>) -> Option<Json>;

/// The ignore patterns that come from the overlay: those of the value that
/// its text parses to; none without an overlay.
pub open spec fn patterns_from(overlay: Option<Seq<char>>) -> Seq<Seq<char>> {
    match overlay {
        Some(raw) => match parsed_overlay(raw) {
            Some(json) => overlay_patterns(json),
            None => Seq::<Seq<char>>::empty(),
        },
        None => Seq::<Seq<char>>::empty(),
    }
}

/// A `serde_json::Value` as a `Json`: variant for variant, an array element
/// for element, an object member for member, a number as `to_string` of
/// serde_json writes it.
#[verifier::external_body]
fn json_of(value: serde_json::Value) -> (json: Json) {
    match value {
        serde_json::Value::Null => Json::Null,
        serde_json::Value::Bool(b) => Json::Bool(b),
        serde_json::Value::Number(n) => Json::Number(n.to_string()),
        serde_json::Value::String(text) => Json::Text(text),
        serde_json::Value::Array(items) => Json::Array(items.into_iter().map(json_of).collect()),
        serde_json::Value::Object(members) => {
            Json::Object(members.into_iter().map(|(key, value)| (key, json_of(value))).collect())
        },
    }
}

/// `json5::from_str` parses the text as JSON5, comments and trailing commas
/// included, into a JSON value, or says why it is none; the outcome depends
/// on the text alone. It calls itself once for each array or object that is
/// open, and has no limit of its own. It reads strings and comments as
/// `lex_step` does and stops at the first error, so it never has more open
/// than `nesting` counts.
#[verifier::external_body]
fn parse_overlay(raw: &str) -> (parsed: Result<Json, json5::Error>)
    requires
        nesting(raw@) <= MAX_OVERLAY_NESTING,
    ensures
        match parsed {
            Ok(json) => parsed_overlay(raw@) == Some(json),
            Err(_) => parsed_overlay(raw@) is None,
        },
{
    json5::from_str::<serde_json::Value>(raw).map(json_of)
}

/// The `Display` of `json5::Error` writes what went wrong and, where it is
/// known, the position.
#[verifier::external_body]
fn error_text(e: &json5::Error) -> (text: String) {
    e.to_string()
}

/// The value of the member `key` among `members`, if there is one.
fn find_member<'a>(members: &'a Vec<(String, Json)>, key: &str) -> (found: Option<&'a Json>)
    ensures
        match found {
            Some(value) => member_of(members@, key@) == Some(*value),
            None => member_of(members@, key@) is None,
        },
{
    let mut i: usize = 0;
    proof {
        assert(members@.skip(0) =~= members@);
    }
    while i < members.len()
        invariant
            i <= members.len(),
            member_of(members@, key@) == member_of(members@.skip(i as int), key@),
        decreases members.len() - i,
    {
        let ghost rest = members@.skip(i as int);
        proof {
            assert(rest[0] == members@[i as int]);
            assert(rest.skip(1) =~= members@.skip(i + 1));
        }
        let name = chars_of(members[i].0.as_str());
        if is_text(name.as_slice(), key) {
            return Some(&members[i].1);
        }
        i = i + 1;
    }
    None
}

/// The ignore patterns that `overlay` gives.
pub fn patterns_of(overlay: &Json) -> (patterns: Vec<String>)
    ensures
        string_views(patterns@) == overlay_patterns(*overlay),
{
    let mut patterns: Vec<String> = Vec::new();
    if let Json::Object(members) = overlay {
        if let Some(Json::Array(items)) = find_member(members, OVERLAY_IGNORE_KEY) {
            let mut i: usize = 0;
            proof {
                assert(items@.take(0).len() == 0);
            }
            while i < items.len()
                invariant
                    i <= items.len(),
                    string_views(patterns@) == texts_of(items@.take(i as int)),
                decreases items.len() - i,
            {
                let ghost before = string_views(patterns@);
                proof {
                    assert(items@.take(i + 1).drop_last() =~= items@.take(i as int));
                    assert(items@.take(i + 1).last() == items@[i as int]);
                }
                if let Json::Text(text) = &items[i] {
                    let copy = text.clone();
                    patterns.push(copy);
                    assert(string_views(patterns@) =~= before.push(text@));
                }
                i = i + 1;
            }
            proof {
                assert(items@.take(i as int) =~= items@);
            }
        }
    }
    patterns
}

/// The state behind `c`, met in state `lex`.
fn lex_next(lex: Lex, c: char) -> (next: Lex)
    ensures
        next == lex_step(lex, c),
{
    match lex {
        Lex::Plain => if c == '"' {
            Lex::Double
        } else if c == '\'' {
            Lex::Single
        } else if c == '/' {
            Lex::Slash
        } else {
            Lex::Plain
        },
        Lex::Slash => if c == '/' {
            Lex::Line
        } else if c == '*' {
            Lex::Block
        } else if c == '"' {
            Lex::Double
        } else if c == '\'' {
            Lex::Single
        } else {
            Lex::Plain
        },
        Lex::Single => if c == '\'' {
            Lex::Plain
        } else if c == '\\' {
            Lex::SingleEscape
        } else {
            Lex::Single
        },
        Lex::SingleEscape => Lex::Single,
        Lex::Double => if c == '"' {
            Lex::Plain
        } else if c == '\\' {
            Lex::DoubleEscape
        } else {
            Lex::Double
        },
        Lex::DoubleEscape => Lex::Double,
        Lex::Line => if c == '\n' || c == '\r' || c == '\u{2028}' || c == '\u{2029}' {
            Lex::Plain
        } else {
            Lex::Line
        },
        Lex::Block => if c == '*' {
            Lex::BlockStar
        } else {
            Lex::Block
        },
        Lex::BlockStar => if c == '/' {
            Lex::Plain
        } else if c == '*' {
            Lex::BlockStar
        } else {
            Lex::Block
        },
    }
}

/// Whether `c`, met in state `lex`, is read as plain text.
fn plain_at(lex: Lex, c: char) -> (plain: bool)
    ensures
        plain == reads_plain(lex, c),
{
    match lex {
        Lex::Plain => true,
        Lex::Slash => c != '/' && c != '*',
        _ => false,
    }
}

/// Whether the arrays and objects of `raw` nest no deeper than
/// `MAX_OVERLAY_NESTING`.
pub fn within_nesting(raw: &str) -> (ok: bool)
    ensures
        ok == (nesting(raw@) <= MAX_OVERLAY_NESTING),
{
    let chars = chars_of(raw);
    let mut lex = Lex::Plain;
    let mut depth: usize = 0;
    let mut deepest: usize = 0;
    let mut i: usize = 0;
    while i < chars.len()
        invariant
            i <= chars.len(),
            chars@ == raw@,
            lex == lex_after(chars@.take(i as int)),
            depth == depth_after(chars@.take(i as int)),
            deepest == nesting(chars@.take(i as int)),
            depth <= i,
            deepest <= i,
        decreases chars.len() - i,
    {
        proof {
            assert(chars@.take(i + 1).drop_last() == chars@.take(i as int));
        }
        let c = chars[i];
        if plain_at(lex, c) {
            if c == '[' || c == '{' {
                depth = depth + 1;
            } else if (c == ']' || c == '}') && depth > 0 {
                depth = depth - 1;
            }
        }
        if depth > deepest {
            deepest = depth;
        }
        lex = lex_next(lex, c);
        i = i + 1;
    }
    proof {
        assert(chars@.take(i as int) == chars@);
    }
    deepest <= MAX_OVERLAY_NESTING
}

impl Config {
    /// The name of the project: the file name of the root as the file system
    /// resolves it, `canonical`, or of the root as given where it could not
    /// be resolved; `unknown` where that path has no file name.
    pub fn project_name(&self, canonical: Option<&str>) -> (name: String)
        ensures
            name@ == name_or(
                match canonical {
                    Some(resolved) => resolved@,
                    None => self.root@,
                },
                UNKNOWN_PROJECT@,
            ),
    {
        match canonical {
            Some(resolved) => file_name_or(resolved, UNKNOWN_PROJECT),
            None => file_name_or(self.root.as_str(), UNKNOWN_PROJECT),
        }
    }

    /// The configuration made of the caller's values and the ignore patterns
    /// that an overlay gave.
    pub fn with_overlay_patterns(
        root: &str,
        output_path: &str,
        extra: &Vec<String>,
        overlay: Vec<String>,
        ignore_file: Option<&str>,
        dependency_graph: bool,
    ) -> (cfg: Config)
        ensures
            cfg@ == configured(
                root@,
                output_path@,
                string_views(extra@),
                string_views(overlay@),
                opt_text(ignore_file),
                dependency_graph,
            ),
    {
        let mut extra_ignores = clone_strings(extra);
        let ghost first = string_views(extra_ignores@);
        let mut overlay = overlay;
        let ghost second = string_views(overlay@);
        extra_ignores.append(&mut overlay);
        assert(string_views(extra_ignores@) =~= first + second);
        Config {
            root: root.to_owned(),
            output_file: output_path.to_owned(),
            extra_ignores,
            ignore_filename: match ignore_file {
                Some(name) => name.to_owned(),
                None => DEFAULT_IGNORE_FILENAME.to_owned(),
            },
            dependency_graph,
        }
    }

    /// The configuration of a run. `overlay` is the text of the user's
    /// overlay file, if there is one: JSON5 whose member `ignore`, if it is an
    /// array, gives more ignore patterns, one for each string in it. Without
    /// an overlay the configuration holds the caller's values alone. With one,
    /// the caller's patterns come first and those of the overlay after them;
    /// an overlay that is no JSON5, or whose arrays and objects nest too deep
    /// to be parsed safely, is an error.
    pub fn load(
        root: &str,
        output_path: &str,
        extra: &Vec<String>,
        ignore_file: Option<&str>,
        dependency_graph: bool,
        overlay: Option<&str>,
    ) -> (loaded: Result<Config, ConfigError>)
        ensures
            loaded is Ok <==> (overlay matches Some(raw) ==> nesting(raw@) <= MAX_OVERLAY_NESTING
                && parsed_overlay(raw@) is Some),
            loaded matches Ok(cfg) ==> cfg@ == configured(
                root@,
                output_path@,
                string_views(extra@),
                patterns_from(opt_text(overlay)),
                opt_text(ignore_file),
                dependency_graph,
            ),
            loaded matches Err(e) ==> (e is TooDeep <==> (overlay matches Some(raw) && nesting(raw@)
                > MAX_OVERLAY_NESTING)),
    {
        let patterns = match overlay {
            None => Vec::new(),
            Some(raw) => {
                if !within_nesting(raw) {
                    return Err(ConfigError::TooDeep);
                }
                match parse_overlay(raw) {
                    Err(e) => {
                        return Err(ConfigError::Malformed(error_text(&e)));
                    },
                    Ok(json) => patterns_of(&json),
                }
            },
        };
        Ok(Config::with_overlay_patterns(root, output_path, extra, patterns, ignore_file, dependency_graph))
    }
}

} // verus!
