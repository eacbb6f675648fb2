//! The supported languages: how a file path or a language name selects one,
//! its canonical name, and its tree-sitter grammar.
use vstd::prelude::*;
use crate::text::{ascii_lower, chars_of, folded_range_eq, lower_char, lower_code, range_eq};
use crate::ts;
use crate::ts::Grammar;

verus! {

/// A language that patchwork can parse.
#[derive(Clone, Copy, Debug, PartialEq, Eq, Structural)]
pub enum Lang {
    Java,
    Python,
    JavaScript,
    TypeScript,
    Tsx,
    Rust,
    Go,
    Ruby,
    C,
    Cpp,
    CSharp,
    Php,
    Bash,
}

/// The index of the last occurrence of `c` in `s`, or -1 when `c` does not
/// occur.
pub open spec fn last_index_of(s: Seq<char>, c: char) -> int
    decreases s.len(),
{
    if s.len() == 0 {
        -1
    } else if s.last() == c {
        s.len() - 1
    } else {
        last_index_of(s.drop_last(), c)
    }
}

pub proof fn lemma_last_index_of(s: Seq<char>, c: char)
    ensures
        -1 <= last_index_of(s, c) < s.len(),
        last_index_of(s, c) >= 0 ==> s[last_index_of(s, c)] == c,
        forall|j: int| last_index_of(s, c) < j < s.len() ==> s[j] != c,
    decreases s.len(),
{
    if s.len() > 0 && s.last() != c {
        lemma_last_index_of(s.drop_last(), c);
        assert forall|j: int| last_index_of(s, c) < j < s.len() implies s[j] != c by {
            if j < s.len() - 1 {
                assert(s[j] == s.drop_last()[j]);
            }
        }
    }
}

/// The file name of a path: its last `/`-separated component, where empty
/// components and `.` components are skipped, and where a final `..` means
/// that there is no file name.
pub open spec fn file_name(path: Seq<char>) -> Option<Seq<char>>
    decreases path.len(),
{
    let k = last_index_of(path, '/');
    let piece = path.subrange(k + 1, path.len() as int);
    if piece.len() == 0 || piece == seq!['.'] {
        if k < 0 {
            None
        } else {
            proof {
                lemma_last_index_of(path, '/');
            }
            file_name(path.subrange(0, k))
        }
    } else if piece == seq!['.', '.'] {
        None
    } else {
        Some(piece)
    }
}

/// The extension of a file name: the text after its last `.`, unless the
/// name has no `.` or its only leading part before the last `.` is empty.
pub open spec fn name_extension(name: Seq<char>) -> Option<Seq<char>> {
    let d = last_index_of(name, '.');
    if d <= 0 {
        None
    } else {
        Some(name.subrange(d + 1, name.len() as int))
    }
}

/// The extension of the file that `path` names.
pub open spec fn path_extension(path: Seq<char>) -> Option<Seq<char>> {
    match file_name(path) {
        Some(name) => name_extension(name),
        None => None,
    }
}

/// The language for a (case-folded) file extension.
pub open spec fn lang_for_extension(e: Seq<char>) -> Option<Lang> {
    if e == "java"@ {
        Some(Lang::Java)
    } else if e == "py"@ {
        Some(Lang::Python)
    } else if e == "js"@ || e == "jsx"@ || e == "mjs"@ || e == "cjs"@ {
        Some(Lang::JavaScript)
    } else if e == "ts"@ {
        Some(Lang::TypeScript)
    } else if e == "tsx"@ {
        Some(Lang::Tsx)
    } else if e == "rs"@ {
        Some(Lang::Rust)
    } else if e == "go"@ {
        Some(Lang::Go)
    } else if e == "rb"@ {
        Some(Lang::Ruby)
    } else if e == "c"@ || e == "h"@ {
        Some(Lang::C)
    } else if e == "cpp"@ || e == "cc"@ || e == "cxx"@ || e == "hpp"@ || e == "hh"@ {
        Some(Lang::Cpp)
    } else if e == "cs"@ {
        Some(Lang::CSharp)
    } else if e == "php"@ {
        Some(Lang::Php)
    } else if e == "sh"@ || e == "bash"@ || e == "zsh"@ {
        Some(Lang::Bash)
    } else {
        None
    }
}

/// The language selected by the extension of `path`, compared without
/// regard to ASCII case.
pub open spec fn spec_from_extension(path: Seq<char>) -> Option<Lang> {
    match path_extension(path) {
        Some(e) => lang_for_extension(ascii_lower(e)),
        None => None,
    }
}

/// The language for a (case-folded) language name or abbreviation.
pub open spec fn lang_for_name(n: Seq<char>) -> Option<Lang> {
    if n == "java"@ {
        Some(Lang::Java)
    } else if n == "python"@ || n == "py"@ {
        Some(Lang::Python)
    } else if n == "javascript"@ || n == "js"@ {
        Some(Lang::JavaScript)
    } else if n == "typescript"@ || n == "ts"@ {
        Some(Lang::TypeScript)
    } else if n == "tsx"@ {
        Some(Lang::Tsx)
    } else if n == "rust"@ || n == "rs"@ {
        Some(Lang::Rust)
    } else if n == "go"@ {
        Some(Lang::Go)
    } else if n == "ruby"@ || n == "rb"@ {
        Some(Lang::Ruby)
    } else if n == "c"@ {
        Some(Lang::C)
    } else if n == "cpp"@ || n == "cxx"@ {
        Some(Lang::Cpp)
    } else if n == "csharp"@ || n == "cs"@ {
        Some(Lang::CSharp)
    } else if n == "php"@ {
        Some(Lang::Php)
    } else if n == "bash"@ || n == "sh"@ {
        Some(Lang::Bash)
    } else {
        None
    }
}

/// The language selected by `name`, compared without regard to ASCII case.
///
/// Folding only ASCII letters selects the same languages as full Unicode
/// lower-casing would: every recognized name and extension is ASCII without
/// a `k`, and the only characters outside ASCII whose lower case holds ASCII
/// (the Kelvin sign, lower-cased to `k`, and the dotted capital I,
/// lower-cased to `i` followed by a combining dot) cannot complete any of
/// them.
pub open spec fn spec_from_name(name: Seq<char>) -> Option<Lang> {
    lang_for_name(ascii_lower(name))
}

/// The canonical name of a language.
pub open spec fn spec_name(lang: Lang) -> Seq<char> {
    match lang {
        Lang::Java => "java"@,
        Lang::Python => "python"@,
        Lang::JavaScript => "javascript"@,
        Lang::TypeScript => "typescript"@,
        Lang::Tsx => "tsx"@,
        Lang::Rust => "rust"@,
        Lang::Go => "go"@,
        Lang::Ruby => "ruby"@,
        Lang::C => "c"@,
        Lang::Cpp => "cpp"@,
        Lang::CSharp => "csharp"@,
        Lang::Php => "php"@,
        Lang::Bash => "bash"@,
    }
}

/// Every supported language, in declaration order.
pub open spec fn all_langs() -> Seq<Lang> {
    seq![
        Lang::Java,
        Lang::Python,
        Lang::JavaScript,
        Lang::TypeScript,
        Lang::Tsx,
        Lang::Rust,
        Lang::Go,
        Lang::Ruby,
        Lang::C,
        Lang::Cpp,
        Lang::CSharp,
        Lang::Php,
        Lang::Bash,
    ]
}

/// ASCII case folding of a character is idempotent.
pub proof fn lemma_lower_char_idempotent(c: char)
    ensures
        lower_char(lower_char(c)) == lower_char(c),
{
    if 'A' <= c && c <= 'Z' {
        assert((lower_code(c) as char) as u32 == lower_code(c));
    }
}

/// Case folding a string twice is folding it once.
pub proof fn lemma_ascii_lower_idempotent(s: Seq<char>)
    ensures
        ascii_lower(ascii_lower(s)) == ascii_lower(s),
{
    assert forall|i: int| 0 <= i < s.len() implies ascii_lower(ascii_lower(s))[i] == ascii_lower(
        s,
    )[i] by {
        lemma_lower_char_idempotent(s[i]);
    }
    assert(ascii_lower(ascii_lower(s)) =~= ascii_lower(s));
}

/// A character that is not an ASCII letter is the folding only of itself.
proof fn lemma_lower_char_is_non_letter(x: char, c: char)
    requires
        !('A' <= c && c <= 'Z'),
        !('a' <= c && c <= 'z'),
    ensures
        (lower_char(x) == c) == (x == c),
{
    if 'A' <= x && x <= 'Z' {
        assert(97 <= lower_code(x) <= 122);
        assert((lower_code(x) as char) as u32 == lower_code(x));
    }
}

/// Folding commutes with taking part of a string.
proof fn lemma_lower_subrange(s: Seq<char>, a: int, b: int)
    requires
        0 <= a <= b <= s.len(),
    ensures
        ascii_lower(s).subrange(a, b) == ascii_lower(s.subrange(a, b)),
{
    assert(ascii_lower(s).subrange(a, b) =~= ascii_lower(s.subrange(a, b)));
}

/// A separator that is not a letter is found at the same place after
/// folding.
proof fn lemma_last_index_of_lower(s: Seq<char>, c: char)
    requires
        !('A' <= c && c <= 'Z'),
        !('a' <= c && c <= 'z'),
    ensures
        last_index_of(ascii_lower(s), c) == last_index_of(s, c),
    decreases s.len(),
{
    if s.len() > 0 {
        lemma_lower_char_is_non_letter(s.last(), c);
        assert(ascii_lower(s).drop_last() =~= ascii_lower(s.drop_last()));
        lemma_last_index_of_lower(s.drop_last(), c);
    }
}

/// A string folds to a string without letters only when it is that string.
proof fn lemma_lower_equals_non_letters(s: Seq<char>, t: Seq<char>)
    requires
        forall|i: int| 0 <= i < t.len() ==> !('A' <= #[trigger] t[i] && t[i] <= 'Z') && !('a' <= t[i]
            && t[i] <= 'z'),
    ensures
        (ascii_lower(s) == t) == (s == t),
{
    if s.len() == t.len() {
        assert forall|i: int| 0 <= i < s.len() implies (ascii_lower(s)[i] == t[i]) == (s[i]
            == t[i]) by {
            lemma_lower_char_is_non_letter(s[i], t[i]);
        }
        if ascii_lower(s) == t {
            assert(s =~= t);
        }
        if s == t {
            assert(ascii_lower(s) =~= t);
        }
    } else {
        assert(ascii_lower(s).len() != t.len());
    }
}

/// The file name of a folded path is the folded file name.
proof fn lemma_file_name_lower(path: Seq<char>)
    ensures
        file_name(ascii_lower(path)) == match file_name(path) {
            Some(n) => Some(ascii_lower(n)),
            None => None::<Seq<char>>,
        },
    decreases path.len(),
{
    let lp = ascii_lower(path);
    lemma_last_index_of_lower(path, '/');
    lemma_last_index_of(path, '/');
    let k = last_index_of(path, '/');
    lemma_lower_subrange(path, k + 1, path.len() as int);
    let piece = path.subrange(k + 1, path.len() as int);
    lemma_lower_equals_non_letters(piece, seq!['.']);
    lemma_lower_equals_non_letters(piece, seq!['.', '.']);
    if k >= 0 {
        lemma_lower_subrange(path, 0, k);
        lemma_file_name_lower(path.subrange(0, k));
    }
}

/// Folding the case of a path does not change the language its extension
/// selects: `Lang::from_extension` ignores ASCII case.
pub proof fn lemma_from_extension_ignores_case(path: Seq<char>)
    ensures
        spec_from_extension(ascii_lower(path)) == spec_from_extension(path),
{
    lemma_file_name_lower(path);
    match file_name(path) {
        Some(n) => {
            lemma_last_index_of_lower(n, '.');
            let d = last_index_of(n, '.');
            if d > 0 {
                lemma_last_index_of(n, '.');
                lemma_lower_subrange(n, d + 1, n.len() as int);
                lemma_ascii_lower_idempotent(n.subrange(d + 1, n.len() as int));
            }
        },
        None => {},
    }
}

/// `Lang::from_name` ignores ASCII case.
pub proof fn lemma_from_name_ignores_case(name: Seq<char>)
    ensures
        spec_from_name(ascii_lower(name)) == spec_from_name(name),
{
    lemma_ascii_lower_idempotent(name);
}

/// Folding leaves a string without upper-case ASCII letters alone.
proof fn lemma_lower_of_lower_case(s: Seq<char>)
    requires
        forall|i: int| 0 <= i < s.len() ==> !('A' <= #[trigger] s[i] && s[i] <= 'Z'),
    ensures
        ascii_lower(s) == s,
{
    assert(ascii_lower(s) =~= s);
}

/// The canonical name of each language selects that language again.
pub proof fn lemma_name_round_trip(lang: Lang)
    ensures
        spec_from_name(spec_name(lang)) == Some(lang),
{
    reveal_strlit("java");
    reveal_strlit("python");
    reveal_strlit("py");
    reveal_strlit("javascript");
    reveal_strlit("js");
    reveal_strlit("typescript");
    reveal_strlit("ts");
    reveal_strlit("tsx");
    reveal_strlit("rust");
    reveal_strlit("rs");
    reveal_strlit("go");
    reveal_strlit("ruby");
    reveal_strlit("rb");
    reveal_strlit("c");
    reveal_strlit("cpp");
    reveal_strlit("cxx");
    reveal_strlit("csharp");
    reveal_strlit("cs");
    reveal_strlit("php");
    reveal_strlit("bash");
    reveal_strlit("sh");
    let n = spec_name(lang);
    lemma_lower_of_lower_case(n);
    assert("java"@.len() != "javascript"@.len());
    assert("ts"@.len() != "tsx"@.len());
    assert("c"@.len() != "cpp"@.len());
    assert("c"@.len() != "cs"@.len());
    assert("cs"@.len() != "csharp"@.len());
    assert("rust"@[2] != "ruby"@[2]);
    assert("java"@[0] == 'j');
    assert("python"@[0] == 'p');
    assert("py"@[0] == 'p');
    assert("javascript"@[0] == 'j');
    assert("js"@[0] == 'j');
    assert("typescript"@[0] == 't');
    assert("ts"@[0] == 't');
    assert("tsx"@[0] == 't');
    assert("rust"@[0] == 'r');
    assert("rs"@[0] == 'r');
    assert("go"@[0] == 'g');
    assert("ruby"@[0] == 'r');
    assert("rb"@[0] == 'r');
    assert("c"@[0] == 'c');
    assert("cpp"@[0] == 'c');
    assert("cxx"@[0] == 'c');
    assert("csharp"@[0] == 'c');
    assert("cs"@[0] == 'c');
    assert("php"@[0] == 'p');
    assert("bash"@[0] == 'b');
    assert("sh"@[0] == 's');
    assert("python"@.len() != "php"@.len());
    assert("bash"@.len() != "c"@.len());
}

proof fn lemma_last_index_of_concat(a: Seq<char>, b: Seq<char>, c: char)
    requires
        forall|i: int| 0 <= i < b.len() ==> b[i] != c,
    ensures
        last_index_of(a + b, c) == last_index_of(a, c),
    decreases b.len(),
{
    if b.len() > 0 {
        assert((a + b).last() == b.last());
        assert((a + b).drop_last() =~= a + b.drop_last());
        assert(b.last() == b[b.len() - 1]);
        lemma_last_index_of_concat(a, b.drop_last(), c);
    } else {
        assert(a + b =~= a);
    }
}

/// The extension of `prefix` + `stem` + `.` + `ext`, where `prefix` is
/// empty or a directory ending in `/`, `stem` is a non-empty name without
/// `/`, and `ext` is non-empty without `/` or `.`, is `ext`: so
/// `scripts/deploy.bash` has the extension `bash`.
pub proof fn lemma_path_extension(prefix: Seq<char>, stem: Seq<char>, ext: Seq<char>)
    requires
        prefix.len() == 0 || prefix.last() == '/',
        stem.len() > 0,
        ext.len() > 0,
        forall|i: int| 0 <= i < stem.len() ==> stem[i] != '/',
        forall|i: int| 0 <= i < ext.len() ==> ext[i] != '/' && ext[i] != '.',
    ensures
        path_extension(prefix + stem + seq!['.'] + ext) == Some(ext),
{
    let name = stem + seq!['.'] + ext;
    let path = prefix + stem + seq!['.'] + ext;
    assert(path =~= prefix + name);
    assert forall|i: int| 0 <= i < name.len() implies name[i] != '/' by {
        if i < stem.len() {
            assert(name[i] == stem[i]);
        } else if i > stem.len() {
            assert(name[i] == ext[i - stem.len() - 1]);
        }
    }
    lemma_last_index_of_concat(prefix, name, '/');
    if prefix.len() > 0 {
        assert(last_index_of(prefix, '/') == prefix.len() - 1);
    }
    let k = last_index_of(path, '/');
    assert(k == prefix.len() - 1);
    assert(path.subrange(k + 1, path.len() as int) =~= name);
    assert(name.len() >= 3);
    assert(name != seq!['.']);
    assert(name != seq!['.', '.']);
    assert(file_name(path) == Some(name));
    lemma_last_index_of_concat(stem + seq!['.'], ext, '.');
    assert(stem + seq!['.'] + ext =~= name);
    assert((stem + seq!['.']).last() == '.');
    assert(last_index_of(stem + seq!['.'], '.') == stem.len());
    assert(name.subrange(stem.len() + 1 as int, name.len() as int) =~= ext);
}

/// The extension table: a path whose file has one of these extensions, in
/// any ASCII case, is in the language listed, and a path with any other
/// extension, or none, is in no language.
pub proof fn lemma_extension_table(path: Seq<char>)
    ensures
        path_extension(path) is None ==> spec_from_extension(path) is None,
        path_extension(path) matches Some(e) ==> {
            &&& (ascii_lower(e) == "java"@) ==> spec_from_extension(path) == Some(Lang::Java)
            &&& (ascii_lower(e) == "py"@) ==> spec_from_extension(path) == Some(Lang::Python)
            &&& (ascii_lower(e) == "js"@ || ascii_lower(e) == "jsx"@ || ascii_lower(e) == "mjs"@ || ascii_lower(e) == "cjs"@) ==> spec_from_extension(path) == Some(Lang::JavaScript)
            &&& (ascii_lower(e) == "ts"@) ==> spec_from_extension(path) == Some(Lang::TypeScript)
            &&& (ascii_lower(e) == "tsx"@) ==> spec_from_extension(path) == Some(Lang::Tsx)
            &&& (ascii_lower(e) == "rs"@) ==> spec_from_extension(path) == Some(Lang::Rust)
            &&& (ascii_lower(e) == "go"@) ==> spec_from_extension(path) == Some(Lang::Go)
            &&& (ascii_lower(e) == "rb"@) ==> spec_from_extension(path) == Some(Lang::Ruby)
            &&& (ascii_lower(e) == "c"@ || ascii_lower(e) == "h"@) ==> spec_from_extension(path) == Some(Lang::C)
            &&& (ascii_lower(e) == "cpp"@ || ascii_lower(e) == "cc"@ || ascii_lower(e) == "cxx"@ || ascii_lower(e) == "hpp"@ || ascii_lower(e) == "hh"@) ==> spec_from_extension(path) == Some(Lang::Cpp)
            &&& (ascii_lower(e) == "cs"@) ==> spec_from_extension(path) == Some(Lang::CSharp)
            &&& (ascii_lower(e) == "php"@) ==> spec_from_extension(path) == Some(Lang::Php)
            &&& (ascii_lower(e) == "sh"@ || ascii_lower(e) == "bash"@ || ascii_lower(e) == "zsh"@) ==> spec_from_extension(path) == Some(Lang::Bash)
            &&& !(ascii_lower(e) == "java"@ || ascii_lower(e) == "py"@ || ascii_lower(e) == "js"@ || ascii_lower(e) == "jsx"@ || ascii_lower(e) == "mjs"@ || ascii_lower(e) == "cjs"@ || ascii_lower(e) == "ts"@ || ascii_lower(e) == "tsx"@ || ascii_lower(e) == "rs"@ || ascii_lower(e) == "go"@ || ascii_lower(e) == "rb"@ || ascii_lower(e) == "c"@ || ascii_lower(e) == "h"@ || ascii_lower(e) == "cpp"@ || ascii_lower(e) == "cc"@ || ascii_lower(e) == "cxx"@ || ascii_lower(e) == "hpp"@ || ascii_lower(e) == "hh"@ || ascii_lower(e) == "cs"@ || ascii_lower(e) == "php"@ || ascii_lower(e) == "sh"@ || ascii_lower(e) == "bash"@ || ascii_lower(e) == "zsh"@) ==> spec_from_extension(path) is None
        },
{
    reveal_strlit("bash");
    assert("bash"@.len() == 4);
    assert("bash"@[0] == 'b');
    assert("bash"@[1] == 'a');
    reveal_strlit("c");
    assert("c"@.len() == 1);
    assert("c"@[0] == 'c');
    reveal_strlit("cc");
    assert("cc"@.len() == 2);
    assert("cc"@[0] == 'c');
    assert("cc"@[1] == 'c');
    reveal_strlit("cjs");
    assert("cjs"@.len() == 3);
    assert("cjs"@[0] == 'c');
    assert("cjs"@[1] == 'j');
    reveal_strlit("cpp");
    assert("cpp"@.len() == 3);
    assert("cpp"@[0] == 'c');
    assert("cpp"@[1] == 'p');
    reveal_strlit("cs");
    assert("cs"@.len() == 2);
    assert("cs"@[0] == 'c');
    assert("cs"@[1] == 's');
    reveal_strlit("cxx");
    assert("cxx"@.len() == 3);
    assert("cxx"@[0] == 'c');
    assert("cxx"@[1] == 'x');
    reveal_strlit("go");
    assert("go"@.len() == 2);
    assert("go"@[0] == 'g');
    assert("go"@[1] == 'o');
    reveal_strlit("h");
    assert("h"@.len() == 1);
    assert("h"@[0] == 'h');
    reveal_strlit("hh");
    assert("hh"@.len() == 2);
    assert("hh"@[0] == 'h');
    assert("hh"@[1] == 'h');
    reveal_strlit("hpp");
    assert("hpp"@.len() == 3);
    assert("hpp"@[0] == 'h');
    assert("hpp"@[1] == 'p');
    reveal_strlit("java");
    assert("java"@.len() == 4);
    assert("java"@[0] == 'j');
    assert("java"@[1] == 'a');
    reveal_strlit("js");
    assert("js"@.len() == 2);
    assert("js"@[0] == 'j');
    assert("js"@[1] == 's');
    reveal_strlit("jsx");
    assert("jsx"@.len() == 3);
    assert("jsx"@[0] == 'j');
    assert("jsx"@[1] == 's');
    reveal_strlit("mjs");
    assert("mjs"@.len() == 3);
    assert("mjs"@[0] == 'm');
    assert("mjs"@[1] == 'j');
    reveal_strlit("php");
    assert("php"@.len() == 3);
    assert("php"@[0] == 'p');
    assert("php"@[1] == 'h');
    reveal_strlit("py");
    assert("py"@.len() == 2);
    assert("py"@[0] == 'p');
    assert("py"@[1] == 'y');
    reveal_strlit("rb");
    assert("rb"@.len() == 2);
    assert("rb"@[0] == 'r');
    assert("rb"@[1] == 'b');
    reveal_strlit("rs");
    assert("rs"@.len() == 2);
    assert("rs"@[0] == 'r');
    assert("rs"@[1] == 's');
    reveal_strlit("sh");
    assert("sh"@.len() == 2);
    assert("sh"@[0] == 's');
    assert("sh"@[1] == 'h');
    reveal_strlit("ts");
    assert("ts"@.len() == 2);
    assert("ts"@[0] == 't');
    assert("ts"@[1] == 's');
    reveal_strlit("tsx");
    assert("tsx"@.len() == 3);
    assert("tsx"@[0] == 't');
    assert("tsx"@[1] == 's');
    reveal_strlit("zsh");
    assert("zsh"@.len() == 3);
    assert("zsh"@[0] == 'z');
    assert("zsh"@[1] == 's');
}

/// The table of language names: a name that is one of these, in any ASCII
/// case, selects the language listed, and any other name selects none.
pub proof fn lemma_name_table(name: Seq<char>)
    ensures
        (ascii_lower(name) == "java"@) ==> spec_from_name(name) == Some(Lang::Java),
        (ascii_lower(name) == "python"@ || ascii_lower(name) == "py"@) ==> spec_from_name(name) == Some(Lang::Python),
        (ascii_lower(name) == "javascript"@ || ascii_lower(name) == "js"@) ==> spec_from_name(name) == Some(Lang::JavaScript),
        (ascii_lower(name) == "typescript"@ || ascii_lower(name) == "ts"@) ==> spec_from_name(name) == Some(Lang::TypeScript),
        (ascii_lower(name) == "tsx"@) ==> spec_from_name(name) == Some(Lang::Tsx),
        (ascii_lower(name) == "rust"@ || ascii_lower(name) == "rs"@) ==> spec_from_name(name) == Some(Lang::Rust),
        (ascii_lower(name) == "go"@) ==> spec_from_name(name) == Some(Lang::Go),
        (ascii_lower(name) == "ruby"@ || ascii_lower(name) == "rb"@) ==> spec_from_name(name) == Some(Lang::Ruby),
        (ascii_lower(name) == "c"@) ==> spec_from_name(name) == Some(Lang::C),
        (ascii_lower(name) == "cpp"@ || ascii_lower(name) == "cxx"@) ==> spec_from_name(name) == Some(Lang::Cpp),
        (ascii_lower(name) == "csharp"@ || ascii_lower(name) == "cs"@) ==> spec_from_name(name) == Some(Lang::CSharp),
        (ascii_lower(name) == "php"@) ==> spec_from_name(name) == Some(Lang::Php),
        (ascii_lower(name) == "bash"@ || ascii_lower(name) == "sh"@) ==> spec_from_name(name) == Some(Lang::Bash),
        !(ascii_lower(name) == "java"@ || ascii_lower(name) == "python"@ || ascii_lower(name) == "py"@ || ascii_lower(name) == "javascript"@ || ascii_lower(name) == "js"@ || ascii_lower(name) == "typescript"@ || ascii_lower(name) == "ts"@ || ascii_lower(name) == "tsx"@ || ascii_lower(name) == "rust"@ || ascii_lower(name) == "rs"@ || ascii_lower(name) == "go"@ || ascii_lower(name) == "ruby"@ || ascii_lower(name) == "rb"@ || ascii_lower(name) == "c"@ || ascii_lower(name) == "cpp"@ || ascii_lower(name) == "cxx"@ || ascii_lower(name) == "csharp"@ || ascii_lower(name) == "cs"@ || ascii_lower(name) == "php"@ || ascii_lower(name) == "bash"@ || ascii_lower(name) == "sh"@) ==> spec_from_name(name) is None,
{
    reveal_strlit("bash");
    assert("bash"@.len() == 4);
    assert("bash"@[0] == 'b');
    assert("bash"@[1] == 'a');
    reveal_strlit("c");
    assert("c"@.len() == 1);
    assert("c"@[0] == 'c');
    reveal_strlit("cpp");
    assert("cpp"@.len() == 3);
    assert("cpp"@[0] == 'c');
    assert("cpp"@[1] == 'p');
    reveal_strlit("cs");
    assert("cs"@.len() == 2);
    assert("cs"@[0] == 'c');
    assert("cs"@[1] == 's');
    reveal_strlit("csharp");
    assert("csharp"@.len() == 6);
    assert("csharp"@[0] == 'c');
    assert("csharp"@[1] == 's');
    reveal_strlit("cxx");
    assert("cxx"@.len() == 3);
    assert("cxx"@[0] == 'c');
    assert("cxx"@[1] == 'x');
    reveal_strlit("go");
    assert("go"@.len() == 2);
    assert("go"@[0] == 'g');
    assert("go"@[1] == 'o');
    reveal_strlit("java");
    assert("java"@.len() == 4);
    assert("java"@[0] == 'j');
    assert("java"@[1] == 'a');
    reveal_strlit("javascript");
    assert("javascript"@.len() == 10);
    assert("javascript"@[0] == 'j');
    assert("javascript"@[1] == 'a');
    reveal_strlit("js");
    assert("js"@.len() == 2);
    assert("js"@[0] == 'j');
    assert("js"@[1] == 's');
    reveal_strlit("php");
    assert("php"@.len() == 3);
    assert("php"@[0] == 'p');
    assert("php"@[1] == 'h');
    reveal_strlit("py");
    assert("py"@.len() == 2);
    assert("py"@[0] == 'p');
    assert("py"@[1] == 'y');
    reveal_strlit("python");
    assert("python"@.len() == 6);
    assert("python"@[0] == 'p');
    assert("python"@[1] == 'y');
    reveal_strlit("rb");
    assert("rb"@.len() == 2);
    assert("rb"@[0] == 'r');
    assert("rb"@[1] == 'b');
    reveal_strlit("rs");
    assert("rs"@.len() == 2);
    assert("rs"@[0] == 'r');
    assert("rs"@[1] == 's');
    reveal_strlit("ruby");
    assert("ruby"@.len() == 4);
    assert("ruby"@[0] == 'r');
    assert("ruby"@[1] == 'u');
    assert("ruby"@[2] == 'b');
    reveal_strlit("rust");
    assert("rust"@.len() == 4);
    assert("rust"@[0] == 'r');
    assert("rust"@[1] == 'u');
    assert("rust"@[2] == 's');
    reveal_strlit("sh");
    assert("sh"@.len() == 2);
    assert("sh"@[0] == 's');
    assert("sh"@[1] == 'h');
    reveal_strlit("ts");
    assert("ts"@.len() == 2);
    assert("ts"@[0] == 't');
    assert("ts"@[1] == 's');
    reveal_strlit("tsx");
    assert("tsx"@.len() == 3);
    assert("tsx"@[0] == 't');
    assert("tsx"@[1] == 's');
    reveal_strlit("typescript");
    assert("typescript"@.len() == 10);
    assert("typescript"@[0] == 't');
    assert("typescript"@[1] == 'y');
}

/// `Lang::all` lists every language, each once.
pub proof fn lemma_all_langs_complete(lang: Lang)
    ensures
        all_langs().contains(lang),
        all_langs().no_duplicates(),
{
    let a = all_langs();
    match lang {
        Lang::Java => assert(a[0] == lang),
        Lang::Python => assert(a[1] == lang),
        Lang::JavaScript => assert(a[2] == lang),
        Lang::TypeScript => assert(a[3] == lang),
        Lang::Tsx => assert(a[4] == lang),
        Lang::Rust => assert(a[5] == lang),
        Lang::Go => assert(a[6] == lang),
        Lang::Ruby => assert(a[7] == lang),
        Lang::C => assert(a[8] == lang),
        Lang::Cpp => assert(a[9] == lang),
        Lang::CSharp => assert(a[10] == lang),
        Lang::Php => assert(a[11] == lang),
        Lang::Bash => assert(a[12] == lang),
    }
}

/// The index of the last `c` in `chars[lo..hi]`, if there is one.
fn last_index_in(chars: &Vec<char>, lo: usize, hi: usize, c: char) -> (res: Option<usize>)
    requires
        lo <= hi <= chars@.len(),
    ensures
        match res {
            Some(k) => lo <= k < hi && last_index_of(chars@.subrange(lo as int, hi as int), c) == k
                - lo,
            None => last_index_of(chars@.subrange(lo as int, hi as int), c) == -1,
        },
{
    let mut j: usize = hi;
    while j > lo
        invariant
            lo <= j <= hi <= chars@.len(),
            last_index_of(chars@.subrange(lo as int, hi as int), c) == last_index_of(
                chars@.subrange(lo as int, j as int),
                c,
            ),
        decreases j - lo,
    {
        let ghost s = chars@.subrange(lo as int, j as int);
        if chars[j - 1] == c {
            assert(s.last() == c);
            return Some(j - 1);
        }
        assert(s.drop_last() =~= chars@.subrange(lo as int, j - 1));
        j = j - 1;
    }
    None
}

/// The position `[lo, hi)` of the file name of the path held in `chars`.
fn file_name_range(chars: &Vec<char>) -> (res: Option<(usize, usize)>)
    ensures
        match res {
            Some((lo, hi)) => lo <= hi <= chars@.len() && file_name(chars@) == Some(
                chars@.subrange(lo as int, hi as int),
            ),
            None => file_name(chars@) is None,
        },
{
    let mut end: usize = chars.len();
    assert(chars@.subrange(0, end as int) =~= chars@);
    loop
        invariant
            end <= chars@.len(),
            file_name(chars@) == file_name(chars@.subrange(0, end as int)),
        decreases end,
    {
        let ghost p = chars@.subrange(0, end as int);
        let k = last_index_in(chars, 0, end, '/');
        let start: usize = match k {
            Some(k) => k + 1,
            None => 0,
        };
        let ghost piece = p.subrange(last_index_of(p, '/') + 1, p.len() as int);
        assert(piece =~= chars@.subrange(start as int, end as int));
        proof {
            reveal_strlit(".");
            reveal_strlit("..");
            assert("."@ =~= seq!['.']);
            assert(".."@ =~= seq!['.', '.']);
        }
        if start == end || range_eq(chars, start, end, ".") {
            match k {
                None => {
                    return None;
                },
                Some(k) => {
                    assert(p.subrange(0, k as int) =~= chars@.subrange(0, k as int));
                    end = k;
                },
            }
        } else if range_eq(chars, start, end, "..") {
            return None;
        } else {
            return Some((start, end));
        }
    }
}

/// The position of the extension of the file that `chars` names.
fn extension_range(chars: &Vec<char>) -> (res: Option<(usize, usize)>)
    ensures
        match res {
            Some((lo, hi)) => lo <= hi <= chars@.len() && path_extension(chars@) == Some(
                chars@.subrange(lo as int, hi as int),
            ),
            None => path_extension(chars@) is None,
        },
{
    match file_name_range(chars) {
        None => None,
        Some((lo, hi)) => {
            let ghost name = chars@.subrange(lo as int, hi as int);
            match last_index_in(chars, lo, hi, '.') {
                None => None,
                Some(d) => {
                    if d == lo {
                        None
                    } else {
                        assert(name.subrange(d - lo + 1, name.len() as int) =~= chars@.subrange(
                            d + 1,
                            hi as int,
                        ));
                        Some((d + 1, hi))
                    }
                },
            }
        },
    }
}

impl Lang {
    /// The language of a file, chosen by its extension without regard to
    /// case.
    pub fn from_extension(path: &str) -> (res: Option<Lang>)
        ensures
            res == spec_from_extension(path@),
    {
        let chars = chars_of(path);
        let (a, b) = match extension_range(&chars) {
            None => {
                return None;
            },
            Some(r) => r,
        };
        if folded_range_eq(&chars, a, b, "java") {
            Some(Lang::Java)
        } else if folded_range_eq(&chars, a, b, "py") {
            Some(Lang::Python)
        } else if folded_range_eq(&chars, a, b, "js") || folded_range_eq(&chars, a, b, "jsx")
            || folded_range_eq(&chars, a, b, "mjs") || folded_range_eq(&chars, a, b, "cjs") {
            Some(Lang::JavaScript)
        } else if folded_range_eq(&chars, a, b, "ts") {
            Some(Lang::TypeScript)
        } else if folded_range_eq(&chars, a, b, "tsx") {
            Some(Lang::Tsx)
        } else if folded_range_eq(&chars, a, b, "rs") {
            Some(Lang::Rust)
        } else if folded_range_eq(&chars, a, b, "go") {
            Some(Lang::Go)
        } else if folded_range_eq(&chars, a, b, "rb") {
            Some(Lang::Ruby)
        } else if folded_range_eq(&chars, a, b, "c") || folded_range_eq(&chars, a, b, "h") {
            Some(Lang::C)
        } else if folded_range_eq(&chars, a, b, "cpp") || folded_range_eq(&chars, a, b, "cc")
            || folded_range_eq(&chars, a, b, "cxx") || folded_range_eq(&chars, a, b, "hpp")
            || folded_range_eq(&chars, a, b, "hh") {
            Some(Lang::Cpp)
        } else if folded_range_eq(&chars, a, b, "cs") {
            Some(Lang::CSharp)
        } else if folded_range_eq(&chars, a, b, "php") {
            Some(Lang::Php)
        } else if folded_range_eq(&chars, a, b, "sh") || folded_range_eq(&chars, a, b, "bash")
            || folded_range_eq(&chars, a, b, "zsh") {
            Some(Lang::Bash)
        } else {
            None
        }
    }

    /// The language named by `name` (a full name or a common abbreviation),
    /// compared without regard to case.
    pub fn from_name(name: &str) -> (res: Option<Lang>)
        ensures
            res == spec_from_name(name@),
    {
        let chars = chars_of(name);
        let n = chars.len();
        assert(chars@.subrange(0, n as int) =~= name@);
        if folded_range_eq(&chars, 0, n, "java") {
            Some(Lang::Java)
        } else if folded_range_eq(&chars, 0, n, "python") || folded_range_eq(&chars, 0, n, "py") {
            Some(Lang::Python)
        } else if folded_range_eq(&chars, 0, n, "javascript") || folded_range_eq(
            &chars,
            0,
            n,
            "js",
        ) {
            Some(Lang::JavaScript)
        } else if folded_range_eq(&chars, 0, n, "typescript") || folded_range_eq(
            &chars,
            0,
            n,
            "ts",
        ) {
            Some(Lang::TypeScript)
        } else if folded_range_eq(&chars, 0, n, "tsx") {
            Some(Lang::Tsx)
        } else if folded_range_eq(&chars, 0, n, "rust") || folded_range_eq(&chars, 0, n, "rs") {
            Some(Lang::Rust)
        } else if folded_range_eq(&chars, 0, n, "go") {
            Some(Lang::Go)
        } else if folded_range_eq(&chars, 0, n, "ruby") || folded_range_eq(&chars, 0, n, "rb") {
            Some(Lang::Ruby)
        } else if folded_range_eq(&chars, 0, n, "c") {
            Some(Lang::C)
        } else if folded_range_eq(&chars, 0, n, "cpp") || folded_range_eq(&chars, 0, n, "cxx") {
            Some(Lang::Cpp)
        } else if folded_range_eq(&chars, 0, n, "csharp") || folded_range_eq(&chars, 0, n, "cs") {
            Some(Lang::CSharp)
        } else if folded_range_eq(&chars, 0, n, "php") {
            Some(Lang::Php)
        } else if folded_range_eq(&chars, 0, n, "bash") || folded_range_eq(&chars, 0, n, "sh") {
            Some(Lang::Bash)
        } else {
            None
        }
    }

    /// The tree-sitter grammar of this language.
    pub fn grammar(&self) -> (res: Grammar)
        ensures
            res@ == *self,
    {
        match self {
            Lang::Java => ts::java_grammar(),
            Lang::Python => ts::python_grammar(),
            Lang::JavaScript => ts::javascript_grammar(),
            Lang::TypeScript => ts::typescript_grammar(),
            Lang::Tsx => ts::tsx_grammar(),
            Lang::Rust => ts::rust_grammar(),
            Lang::Go => ts::go_grammar(),
            Lang::Ruby => ts::ruby_grammar(),
            Lang::C => ts::c_grammar(),
            Lang::Cpp => ts::cpp_grammar(),
            Lang::CSharp => ts::csharp_grammar(),
            Lang::Php => ts::php_grammar(),
            Lang::Bash => ts::bash_grammar(),
        }
    }

    /// The canonical lower-case name of this language.
    pub fn name(&self) -> (res: &'static str)
        ensures
            res@ == spec_name(*self),
    {
        match self {
            Lang::Java => "java",
            Lang::Python => "python",
            Lang::JavaScript => "javascript",
            Lang::TypeScript => "typescript",
            Lang::Tsx => "tsx",
            Lang::Rust => "rust",
            Lang::Go => "go",
            Lang::Ruby => "ruby",
            Lang::C => "c",
            Lang::Cpp => "cpp",
            Lang::CSharp => "csharp",
            Lang::Php => "php",
            Lang::Bash => "bash",
        }
    }

    /// Every supported language, each once.
    pub fn all() -> (res: &'static [Lang])
        ensures
            res@ == all_langs(),
    {
        &[
            Lang::Java,
            Lang::Python,
            Lang::JavaScript,
            Lang::TypeScript,
            Lang::Tsx,
            Lang::Rust,
            Lang::Go,
            Lang::Ruby,
            Lang::C,
            Lang::Cpp,
            Lang::CSharp,
            Lang::Php,
            Lang::Bash,
        ]
    }
}

} // verus!
