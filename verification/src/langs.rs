//! The language classifier: a fixed table from file extension to language,
//! and the rule that finds a path's extension.

use crate::bytes::bytes_eq;
use vstd::prelude::*;
use vstd::slice::slice_subrange;
use vstd::string::StringSliceAdditionalSpecFns;

verus! {

/// A language that files are attributed to. `Other` collects the files whose
/// extension is missing or not in the table.
#[derive(Clone, Copy, Debug, PartialEq, Eq, Structural, Hash)]
pub enum Language {
    Assembly,
    Brainfuck,
    C,
    CSharp,
    Cpp,
    Clojure,
    Css,
    Dart,
    Elixir,
    Erlang,
    FSharp,
    Go,
    Haskell,
    Html,
    Java,
    JavaScript,
    Json,
    Julia,
    Kotlin,
    Lua,
    Markdown,
    Nim,
    OCaml,
    Perl,
    Php,
    Python,
    R,
    Ruby,
    Rust,
    Scala,
    Scss,
    Shell,
    Sql,
    Svelte,
    Swift,
    Toml,
    TypeScript,
    Vue,
    Xml,
    Yaml,
    Zig,
    Other,
}

impl Language {
    /// The display name, as a sequence of characters.
    pub open spec fn name_spec(self) -> Seq<char> {
        match self {
            Language::Assembly => "Assembly"@,
            Language::Brainfuck => "Brainfuck"@,
            Language::C => "C"@,
            Language::CSharp => "C#"@,
            Language::Cpp => "C++"@,
            Language::Clojure => "Clojure"@,
            Language::Css => "CSS"@,
            Language::Dart => "Dart"@,
            Language::Elixir => "Elixir"@,
            Language::Erlang => "Erlang"@,
            Language::FSharp => "F#"@,
            Language::Go => "Go"@,
            Language::Haskell => "Haskell"@,
            Language::Html => "HTML"@,
            Language::Java => "Java"@,
            Language::JavaScript => "JavaScript"@,
            Language::Json => "JSON"@,
            Language::Julia => "Julia"@,
            Language::Kotlin => "Kotlin"@,
            Language::Lua => "Lua"@,
            Language::Markdown => "Markdown"@,
            Language::Nim => "Nim"@,
            Language::OCaml => "OCaml"@,
            Language::Perl => "Perl"@,
            Language::Php => "PHP"@,
            Language::Python => "Python"@,
            Language::R => "R"@,
            Language::Ruby => "Ruby"@,
            Language::Rust => "Rust"@,
            Language::Scala => "Scala"@,
            Language::Scss => "SCSS"@,
            Language::Shell => "Shell"@,
            Language::Sql => "SQL"@,
            Language::Svelte => "Svelte"@,
            Language::Swift => "Swift"@,
            Language::Toml => "TOML"@,
            Language::TypeScript => "TypeScript"@,
            Language::Vue => "Vue"@,
            Language::Xml => "XML"@,
            Language::Yaml => "YAML"@,
            Language::Zig => "Zig"@,
            Language::Other => "Other"@,
        }
    }

    /// The display name of the language.
    pub fn name(self) -> (name: &'static str)
        ensures
            name@ == self.name_spec(),
    {
        match self {
            Language::Assembly => "Assembly",
            Language::Brainfuck => "Brainfuck",
            Language::C => "C",
            Language::CSharp => "C#",
            Language::Cpp => "C++",
            Language::Clojure => "Clojure",
            Language::Css => "CSS",
            Language::Dart => "Dart",
            Language::Elixir => "Elixir",
            Language::Erlang => "Erlang",
            Language::FSharp => "F#",
            Language::Go => "Go",
            Language::Haskell => "Haskell",
            Language::Html => "HTML",
            Language::Java => "Java",
            Language::JavaScript => "JavaScript",
            Language::Json => "JSON",
            Language::Julia => "Julia",
            Language::Kotlin => "Kotlin",
            Language::Lua => "Lua",
            Language::Markdown => "Markdown",
            Language::Nim => "Nim",
            Language::OCaml => "OCaml",
            Language::Perl => "Perl",
            Language::Php => "PHP",
            Language::Python => "Python",
            Language::R => "R",
            Language::Ruby => "Ruby",
            Language::Rust => "Rust",
            Language::Scala => "Scala",
            Language::Scss => "SCSS",
            Language::Shell => "Shell",
            Language::Sql => "SQL",
            Language::Svelte => "Svelte",
            Language::Swift => "Swift",
            Language::Toml => "TOML",
            Language::TypeScript => "TypeScript",
            Language::Vue => "Vue",
            Language::Xml => "XML",
            Language::Yaml => "YAML",
            Language::Zig => "Zig",
            Language::Other => "Other",
        }
    }
}

/// The path separator.
pub const SLASH: u8 = 0x2F;

/// The byte that introduces an extension.
pub const DOT: u8 = 0x2E;

/// The table itself: the language of an extension (given without its dot and
/// in the case it was written in), if the table knows it.
#[verifier::opaque]
pub open spec fn extension_language(ext: Seq<u8>) -> Option<Language> {
    if ext == "asm".spec_bytes() || ext == "s".spec_bytes() {
        Some(Language::Assembly)
    } else if ext == "bf".spec_bytes() {
        Some(Language::Brainfuck)
    } else if ext == "c".spec_bytes() || ext == "h".spec_bytes() {
        Some(Language::C)
    } else if ext == "cs".spec_bytes() {
        Some(Language::CSharp)
    } else if ext == "cpp".spec_bytes()
        || ext == "cc".spec_bytes()
        || ext == "cxx".spec_bytes()
        || ext == "hpp".spec_bytes()
        || ext == "hh".spec_bytes() {
        Some(Language::Cpp)
    } else if ext == "clj".spec_bytes() {
        Some(Language::Clojure)
    } else if ext == "css".spec_bytes() {
        Some(Language::Css)
    } else if ext == "dart".spec_bytes() {
        Some(Language::Dart)
    } else if ext == "ex".spec_bytes() || ext == "exs".spec_bytes() {
        Some(Language::Elixir)
    } else if ext == "erl".spec_bytes() {
        Some(Language::Erlang)
    } else if ext == "fs".spec_bytes() {
        Some(Language::FSharp)
    } else if ext == "go".spec_bytes() {
        Some(Language::Go)
    } else if ext == "hs".spec_bytes() || ext == "lhs".spec_bytes() {
        Some(Language::Haskell)
    } else if ext == "html".spec_bytes() || ext == "htm".spec_bytes() {
        Some(Language::Html)
    } else if ext == "java".spec_bytes() {
        Some(Language::Java)
    } else if ext == "js".spec_bytes()
        || ext == "mjs".spec_bytes()
        || ext == "cjs".spec_bytes()
        || ext == "jsx".spec_bytes() {
        Some(Language::JavaScript)
    } else if ext == "json".spec_bytes() {
        Some(Language::Json)
    } else if ext == "jl".spec_bytes() {
        Some(Language::Julia)
    } else if ext == "kt".spec_bytes() || ext == "kts".spec_bytes() {
        Some(Language::Kotlin)
    } else if ext == "lua".spec_bytes() {
        Some(Language::Lua)
    } else if ext == "md".spec_bytes() {
        Some(Language::Markdown)
    } else if ext == "nim".spec_bytes() {
        Some(Language::Nim)
    } else if ext == "ml".spec_bytes() || ext == "mli".spec_bytes() {
        Some(Language::OCaml)
    } else if ext == "pl".spec_bytes() || ext == "pm".spec_bytes() {
        Some(Language::Perl)
    } else if ext == "php".spec_bytes() {
        Some(Language::Php)
    } else if ext == "py".spec_bytes() {
        Some(Language::Python)
    } else if ext == "r".spec_bytes() {
        Some(Language::R)
    } else if ext == "rb".spec_bytes() {
        Some(Language::Ruby)
    } else if ext == "rs".spec_bytes() {
        Some(Language::Rust)
    } else if ext == "scala".spec_bytes() {
        Some(Language::Scala)
    } else if ext == "scss".spec_bytes() {
        Some(Language::Scss)
    } else if ext == "sh".spec_bytes() || ext == "bash".spec_bytes() || ext == "zsh".spec_bytes() {
        Some(Language::Shell)
    } else if ext == "sql".spec_bytes() {
        Some(Language::Sql)
    } else if ext == "svelte".spec_bytes() {
        Some(Language::Svelte)
    } else if ext == "swift".spec_bytes() {
        Some(Language::Swift)
    } else if ext == "toml".spec_bytes() {
        Some(Language::Toml)
    } else if ext == "ts".spec_bytes() || ext == "tsx".spec_bytes() {
        Some(Language::TypeScript)
    } else if ext == "vue".spec_bytes() {
        Some(Language::Vue)
    } else if ext == "xml".spec_bytes() {
        Some(Language::Xml)
    } else if ext == "yaml".spec_bytes() || ext == "yml".spec_bytes() {
        Some(Language::Yaml)
    } else if ext == "zig".spec_bytes() {
        Some(Language::Zig)
    } else {
        None
    }
}

/// Whether `path[dot]` is the dot that introduces the extension of the
/// path's file name: the last dot of the path, with no separator after it,
/// and not the first byte of the file name (a name such as `.profile` has no
/// extension).
pub open spec fn is_extension_dot(path: Seq<u8>, dot: int) -> bool {
    &&& 0 < dot < path.len()
    &&& path[dot] == DOT
    &&& path[dot - 1] != SLASH
    &&& forall|j: int| dot < j < path.len() ==> path[j] != DOT && path[j] != SLASH
}

/// The extension of the path's file name: what follows the final dot.
pub open spec fn path_extension(path: Seq<u8>) -> Option<Seq<u8>> {
    if exists|dot: int| is_extension_dot(path, dot) {
        Some(path.skip((choose|dot: int| is_extension_dot(path, dot)) + 1))
    } else {
        None
    }
}

/// The language a path is attributed to by the table, if any.
pub open spec fn path_language(path: Seq<u8>) -> Option<Language> {
    match path_extension(path) {
        Some(ext) => extension_language(ext),
        None => None,
    }
}

/// A path has at most one extension dot.
pub proof fn lemma_extension_dot_unique(path: Seq<u8>, a: int, b: int)
    requires
        is_extension_dot(path, a),
        is_extension_dot(path, b),
    ensures
        a == b,
{
    if a < b {
        assert(path[b] != DOT);
    } else if b < a {
        assert(path[a] != DOT);
    }
}

fn bytes_are(bytes: &[u8], text: &str) -> (same: bool)
    ensures
        same == (bytes@ == text.spec_bytes()),
{
    bytes_eq(bytes, text.as_bytes())
}

/// Looks an extension up in the table.
pub fn language_for_extension(ext: &[u8]) -> (lang: Option<Language>)
    ensures
        lang == extension_language(ext@),
{
    reveal(extension_language);
    if bytes_are(ext, "asm") || bytes_are(ext, "s") {
        Some(Language::Assembly)
    } else if bytes_are(ext, "bf") {
        Some(Language::Brainfuck)
    } else if bytes_are(ext, "c") || bytes_are(ext, "h") {
        Some(Language::C)
    } else if bytes_are(ext, "cs") {
        Some(Language::CSharp)
    } else if bytes_are(ext, "cpp")
        || bytes_are(ext, "cc")
        || bytes_are(ext, "cxx")
        || bytes_are(ext, "hpp")
        || bytes_are(ext, "hh") {
        Some(Language::Cpp)
    } else if bytes_are(ext, "clj") {
        Some(Language::Clojure)
    } else if bytes_are(ext, "css") {
        Some(Language::Css)
    } else if bytes_are(ext, "dart") {
        Some(Language::Dart)
    } else if bytes_are(ext, "ex") || bytes_are(ext, "exs") {
        Some(Language::Elixir)
    } else if bytes_are(ext, "erl") {
        Some(Language::Erlang)
    } else if bytes_are(ext, "fs") {
        Some(Language::FSharp)
    } else if bytes_are(ext, "go") {
        Some(Language::Go)
    } else if bytes_are(ext, "hs") || bytes_are(ext, "lhs") {
        Some(Language::Haskell)
    } else if bytes_are(ext, "html") || bytes_are(ext, "htm") {
        Some(Language::Html)
    } else if bytes_are(ext, "java") {
        Some(Language::Java)
    } else if bytes_are(ext, "js")
        || bytes_are(ext, "mjs")
        || bytes_are(ext, "cjs")
        || bytes_are(ext, "jsx") {
        Some(Language::JavaScript)
    } else if bytes_are(ext, "json") {
        Some(Language::Json)
    } else if bytes_are(ext, "jl") {
        Some(Language::Julia)
    } else if bytes_are(ext, "kt") || bytes_are(ext, "kts") {
        Some(Language::Kotlin)
    } else if bytes_are(ext, "lua") {
        Some(Language::Lua)
    } else if bytes_are(ext, "md") {
        Some(Language::Markdown)
    } else if bytes_are(ext, "nim") {
        Some(Language::Nim)
    } else if bytes_are(ext, "ml") || bytes_are(ext, "mli") {
        Some(Language::OCaml)
    } else if bytes_are(ext, "pl") || bytes_are(ext, "pm") {
        Some(Language::Perl)
    } else if bytes_are(ext, "php") {
        Some(Language::Php)
    } else if bytes_are(ext, "py") {
        Some(Language::Python)
    } else if bytes_are(ext, "r") {
        Some(Language::R)
    } else if bytes_are(ext, "rb") {
        Some(Language::Ruby)
    } else if bytes_are(ext, "rs") {
        Some(Language::Rust)
    } else if bytes_are(ext, "scala") {
        Some(Language::Scala)
    } else if bytes_are(ext, "scss") {
        Some(Language::Scss)
    } else if bytes_are(ext, "sh") || bytes_are(ext, "bash") || bytes_are(ext, "zsh") {
        Some(Language::Shell)
    } else if bytes_are(ext, "sql") {
        Some(Language::Sql)
    } else if bytes_are(ext, "svelte") {
        Some(Language::Svelte)
    } else if bytes_are(ext, "swift") {
        Some(Language::Swift)
    } else if bytes_are(ext, "toml") {
        Some(Language::Toml)
    } else if bytes_are(ext, "ts") || bytes_are(ext, "tsx") {
        Some(Language::TypeScript)
    } else if bytes_are(ext, "vue") {
        Some(Language::Vue)
    } else if bytes_are(ext, "xml") {
        Some(Language::Xml)
    } else if bytes_are(ext, "yaml") || bytes_are(ext, "yml") {
        Some(Language::Yaml)
    } else if bytes_are(ext, "zig") {
        Some(Language::Zig)
    } else {
        None
    }
}

/// Finds where the extension of the path's file name begins.
pub fn extension_start(path: &[u8]) -> (start: Option<usize>)
    ensures
        match start {
            Some(i) => 1 <= i <= path.len() && is_extension_dot(path@, i - 1)
                && path_extension(path@) == Some(path@.skip(i as int)),
            None => path_extension(path@).is_none(),
        },
{
    let mut i: usize = path.len();
    while i > 0
        invariant
            i <= path.len(),
            forall|j: int| i <= j < path.len() ==> path@[j] != DOT && path@[j] != SLASH,
        decreases i,
    {
        let b: u8 = path[i - 1];
        if b == SLASH {
            proof {
                assert forall|dot: int| !is_extension_dot(path@, dot) by {
                    if is_extension_dot(path@, dot) {
                        if dot < i - 1 {
                            assert(path@[i - 1] != SLASH);
                        }
                    }
                }
            }
            return None;
        }
        if b == DOT {
            if i >= 2 && path[i - 2] != SLASH {
                proof {
                    assert(is_extension_dot(path@, i - 1));
                    let d = choose|dot: int| is_extension_dot(path@, dot);
                    lemma_extension_dot_unique(path@, d, i - 1);
                }
                return Some(i);
            }
            proof {
                assert forall|dot: int| !is_extension_dot(path@, dot) by {
                    if is_extension_dot(path@, dot) {
                        if dot < i - 1 {
                            assert(path@[i - 1] != DOT);
                        }
                    }
                }
            }
            return None;
        }
        i -= 1;
    }
    proof {
        assert forall|dot: int| !is_extension_dot(path@, dot) by {}
    }
    None
}

/// The language of the file at `path` by its extension, or `None` when the
/// file name has no extension or the table does not know it.
pub fn get_file_lang(path: &[u8]) -> (lang: Option<Language>)
    ensures
        lang == path_language(path@),
{
    match extension_start(path) {
        Some(start) => {
            let ext: &[u8] = slice_subrange(path, start, path.len());
            language_for_extension(ext)
        },
        None => None,
    }
}

} // verus!
