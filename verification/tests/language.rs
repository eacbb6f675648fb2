use patchwork::language::Lang;

#[test]
fn test_extension_mapping() {
    assert!(matches!(Lang::from_extension("foo.java"), Some(Lang::Java)));
    assert!(matches!(Lang::from_extension("foo.py"), Some(Lang::Python)));
    assert!(matches!(Lang::from_extension("foo.js"), Some(Lang::JavaScript)));
    assert!(matches!(Lang::from_extension("foo.ts"), Some(Lang::TypeScript)));
    assert!(matches!(Lang::from_extension("foo.tsx"), Some(Lang::Tsx)));
    assert!(matches!(Lang::from_extension("foo.rs"), Some(Lang::Rust)));
    assert!(matches!(Lang::from_extension("foo.go"), Some(Lang::Go)));
    assert!(matches!(Lang::from_extension("foo.rb"), Some(Lang::Ruby)));
    assert!(matches!(Lang::from_extension("foo.c"), Some(Lang::C)));
    assert!(matches!(Lang::from_extension("foo.h"), Some(Lang::C)));
    assert!(matches!(Lang::from_extension("foo.cpp"), Some(Lang::Cpp)));
    assert!(matches!(Lang::from_extension("foo.cc"), Some(Lang::Cpp)));
    assert!(matches!(Lang::from_extension("foo.hpp"), Some(Lang::Cpp)));
    assert!(matches!(Lang::from_extension("foo.cs"), Some(Lang::CSharp)));
    assert!(matches!(Lang::from_extension("foo.php"), Some(Lang::Php)));
    assert!(matches!(Lang::from_extension("foo.sh"), Some(Lang::Bash)));
    assert!(Lang::from_extension("foo.rs").is_some());
}

#[test]
fn test_name_mapping() {
    assert!(matches!(Lang::from_name("java"), Some(Lang::Java)));
    assert!(matches!(Lang::from_name("python"), Some(Lang::Python)));
    assert!(matches!(Lang::from_name("py"), Some(Lang::Python)));
    assert!(matches!(Lang::from_name("js"), Some(Lang::JavaScript)));
    assert!(matches!(Lang::from_name("ts"), Some(Lang::TypeScript)));
    assert!(matches!(Lang::from_name("rs"), Some(Lang::Rust)));
    assert!(matches!(Lang::from_name("go"), Some(Lang::Go)));
    assert!(matches!(Lang::from_name("rb"), Some(Lang::Ruby)));
    assert!(matches!(Lang::from_name("c"), Some(Lang::C)));
    assert!(matches!(Lang::from_name("cpp"), Some(Lang::Cpp)));
    assert!(matches!(Lang::from_name("cs"), Some(Lang::CSharp)));
    assert!(matches!(Lang::from_name("php"), Some(Lang::Php)));
    assert!(matches!(Lang::from_name("bash"), Some(Lang::Bash)));
    assert!(Lang::from_name("ruby").is_some());
    assert!(Lang::from_name("kotlin").is_none());
}

#[test]
fn test_additional_extensions() {
    assert!(matches!(Lang::from_extension("test.jsx"), Some(Lang::JavaScript)));
    assert!(matches!(Lang::from_extension("test.mjs"), Some(Lang::JavaScript)));
    assert!(matches!(Lang::from_extension("test.cjs"), Some(Lang::JavaScript)));
    assert!(matches!(Lang::from_extension("test.hpp"), Some(Lang::Cpp)));
    assert!(matches!(Lang::from_extension("test.hh"), Some(Lang::Cpp)));
    assert!(matches!(Lang::from_extension("test.cxx"), Some(Lang::Cpp)));
    assert!(matches!(Lang::from_extension("test.zsh"), Some(Lang::Bash)));
}

#[test]
fn test_grammar_loads() {
    for lang in &[
        Lang::Java,
        Lang::Python,
        Lang::JavaScript,
        Lang::Rust,
        Lang::Go,
        Lang::Ruby,
        Lang::C,
        Lang::Cpp,
        Lang::CSharp,
        Lang::Php,
        Lang::Bash,
    ] {
        let grammar = lang.grammar();
        let mut p = tree_sitter::Parser::new();
        assert!(p.set_language(grammar.language()).is_ok());
    }
}

#[test]
fn test_case_insensitive_extension() {
    assert!(matches!(Lang::from_extension("TEST.JAVA"), Some(Lang::Java)));
    assert!(matches!(Lang::from_extension("Test.Py"), Some(Lang::Python)));
}

#[test]
fn test_all_includes_all() {
    let names: Vec<&str> = Lang::all().iter().map(|l| l.name()).collect();
    assert!(names.contains(&"rust"));
    assert!(names.contains(&"go"));
    assert_eq!(Lang::all().len(), 13);
}

#[test]
fn typescript_grammars_load() {
    for lang in &[Lang::TypeScript, Lang::Tsx] {
        let mut p = tree_sitter::Parser::new();
        assert!(p.set_language(lang.grammar().language()).is_ok());
    }
}

#[test]
fn extension_comes_from_the_file_name() {
    assert!(matches!(Lang::from_extension("src/dir.java/Main.py"), Some(Lang::Python)));
    assert!(matches!(Lang::from_extension("a/b/c.tar.rs"), Some(Lang::Rust)));
    assert!(matches!(Lang::from_extension("dir/Main.java/"), Some(Lang::Java)));
    assert!(matches!(Lang::from_extension("dir/Main.java/."), Some(Lang::Java)));
    assert!(matches!(Lang::from_extension(".bashrc.sh"), Some(Lang::Bash)));
}

#[test]
fn paths_without_an_extension() {
    assert!(Lang::from_extension("Makefile").is_none());
    assert!(Lang::from_extension(".java").is_none());
    assert!(Lang::from_extension("foo.").is_none());
    assert!(Lang::from_extension("").is_none());
    assert!(Lang::from_extension("/").is_none());
    assert!(Lang::from_extension("dir/..").is_none());
    assert!(Lang::from_extension("dir.java/").is_some());
    assert!(Lang::from_extension("foo.kt").is_none());
    assert!(Lang::from_extension("foo.javaa").is_none());
}

#[test]
fn names_are_case_insensitive_and_exact() {
    assert!(matches!(Lang::from_name("JavaScript"), Some(Lang::JavaScript)));
    assert!(matches!(Lang::from_name("TYPESCRIPT"), Some(Lang::TypeScript)));
    assert!(matches!(Lang::from_name("CSharp"), Some(Lang::CSharp)));
    assert!(matches!(Lang::from_name("cxx"), Some(Lang::Cpp)));
    assert!(matches!(Lang::from_name("sh"), Some(Lang::Bash)));
    assert!(matches!(Lang::from_name("tsx"), Some(Lang::Tsx)));
    assert!(Lang::from_name("java ").is_none());
    assert!(Lang::from_name("").is_none());
    assert!(Lang::from_name("h").is_none());
}

#[test]
fn every_name_maps_back_to_its_language() {
    for lang in Lang::all() {
        assert_eq!(Lang::from_name(lang.name()), Some(*lang));
    }
}

#[test]
fn canonical_names() {
    assert_eq!(Lang::Java.name(), "java");
    assert_eq!(Lang::CSharp.name(), "csharp");
    assert_eq!(Lang::Cpp.name(), "cpp");
    assert_eq!(Lang::Tsx.name(), "tsx");
}

#[test]
fn extension_lookup_ignores_case() {
    for p in ["a/B.JS", "x.TsX", "Y.Rb", "z.CPP", "w.ZSH"] {
        assert_eq!(Lang::from_extension(p), Lang::from_extension(&p.to_ascii_lowercase()));
        assert!(Lang::from_extension(p).is_some());
    }
}

#[test]
fn all_lists_each_language_once() {
    let all = Lang::all();
    for (i, a) in all.iter().enumerate() {
        for b in &all[i + 1..] {
            assert_ne!(a, b);
        }
    }
}
