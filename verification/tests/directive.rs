use glslwatch::directive::{directive, Directive};
use glslwatch::preprocess::{split_lines, AnnotatedGLSL, ModTime};
use glslwatch::text::{decimal_string, is_digit_char, is_space_char, join_lines};
use regex::Regex;

fn included(path: &str) -> Option<Directive> {
    Some(Directive::Include(String::from(path)))
}

fn version(n: usize) -> Option<Directive> {
    Some(Directive::Version(n))
}

#[test]
fn quoted_include() {
    assert_eq!(directive("#include \"common.vert\""), included("common.vert"));
}

#[test]
fn angle_include() {
    assert_eq!(directive("#include <lib/noise.glsl>"), included("lib/noise.glsl"));
}

#[test]
fn include_after_white_space() {
    assert_eq!(directive("  \t#include \"a b.glsl\""), included("a b.glsl"));
    assert_eq!(directive("\u{a0}\u{2003}#include \"a.glsl\""), included("a.glsl"));
}

#[test]
fn include_directly_after_the_keyword() {
    assert_eq!(directive("#include\"a.glsl\""), included("a.glsl"));
    assert_eq!(directive("#include<a.glsl>"), included("a.glsl"));
}

#[test]
fn include_path_is_the_last_delimited_run() {
    assert_eq!(directive("#include \"a\"b\""), included("b"));
    assert_eq!(directive("#include <a<b>"), included("a<b"));
    assert_eq!(directive("#include x <a.glsl>"), included("a.glsl"));
    assert_eq!(directive("#include \"päth/ü.glsl\""), included("päth/ü.glsl"));
}

#[test]
fn include_needs_its_delimiters() {
    assert_eq!(directive("#include common.vert"), None);
    assert_eq!(directive("#include \"common.vert"), None);
    assert_eq!(directive("#include common.vert\""), None);
    assert_eq!(directive("#include \"\""), None);
    assert_eq!(directive("#include <>"), None);
    assert_eq!(directive("#include \"a.glsl\" "), None);
    assert_eq!(directive("#include \"a.glsl\" // why"), None);
    assert_eq!(directive("#include"), None);
    assert_eq!(directive("#include "), None);
}

#[test]
fn include_delimiters_must_belong_together() {
    assert_eq!(directive("#include \"a.glsl>"), None);
    assert_eq!(directive("#include <a.glsl\""), None);
    assert_eq!(directive("#include \"a<b>"), None);
}

#[test]
fn version_of_three_digits() {
    assert_eq!(directive("#version 150"), version(150));
    assert_eq!(directive("#version 007"), version(7));
    assert_eq!(directive("#version 999"), version(999));
    assert_eq!(directive("#version 000"), version(0));
    assert_eq!(directive("   #version\t450  \t"), version(450));
    assert_eq!(directive("#version150"), version(150));
    assert_eq!(directive("#version core 330"), version(330));
}

#[test]
fn version_of_other_lengths_is_no_directive() {
    assert_eq!(directive("#version 15"), None);
    assert_eq!(directive("#version 1500"), None);
    assert_eq!(directive("#version 1"), None);
    assert_eq!(directive("#version"), None);
    assert_eq!(directive("#version "), None);
    assert_eq!(directive("#version 330 core"), None);
    assert_eq!(directive("#version one"), None);
    assert_eq!(directive("#version ١٢٣"), None);
}

#[test]
fn other_lines_are_no_directives() {
    assert_eq!(directive(""), None);
    assert_eq!(directive("   "), None);
    assert_eq!(directive("void main() {}"), None);
    assert_eq!(directive("// #include \"a.glsl\""), None);
    assert_eq!(directive("x #version 150"), None);
    assert_eq!(directive("#define A 150"), None);
    assert_eq!(directive("#Include \"a.glsl\""), None);
    assert_eq!(directive("#VERSION 150"), None);
    assert_eq!(directive("# include \"a.glsl\""), None);
    assert_eq!(directive("#includ"), None);
    assert_eq!(directive("#"), None);
}

/// What the two patterns `("|<)([^">]+)("|>)$` and `\s*(\d\d\d)\s*$` find in
/// what follows the keyword.
fn by_pattern(line: &str) -> Option<Directive> {
    let include_re = Regex::new(r#"("|<)([^">]+)("|>)$"#).unwrap();
    let version_re = Regex::new(r#"\s*(\d\d\d)\s*$"#).unwrap();
    let chars: Vec<char> = line.chars().collect();
    let i = chars.iter().position(|c| !c.is_whitespace())?;
    if chars[i] != '#' || chars.len() < i + 8 {
        return None;
    }
    let word: String = chars[i + 1..i + 8].iter().collect();
    let rest: String = chars[i + 8..].iter().collect();
    match word.as_str() {
        "include" => include_re
            .captures(&rest)
            .and_then(|c| c.get(2))
            .map(|m| Directive::Include(String::from(m.as_str()))),
        "version" => version_re
            .captures(&rest)
            .and_then(|c| c.get(1))
            .and_then(|m| m.as_str().parse::<usize>().ok())
            .map(Directive::Version),
        _ => None,
    }
}

#[test]
fn agrees_with_the_patterns_on_plain_directives() {
    let lines = [
        "#include \"common.vert\"",
        "#include <common.vert>",
        "  #include   \"dir/file.glsl\"",
        "#include \"a\"b\"",
        "#include <a<b>",
        "#include \"a b c\"",
        "#include \"\"",
        "#include <>",
        "#include nothing",
        "#include \"open",
        "#include \"tail\" ",
        "#include",
        "#version 150",
        "#version   450  ",
        "\t#version\t120\t",
        "#version 15",
        "#version",
        "#version abc",
        "#version 330 core",
        "#version x150",
        "#define X",
        "#",
        "",
        "   ",
        "plain text \"quoted\"",
        "#includes \"x.glsl\"",
        "#versions 150",
    ];
    for line in lines.iter() {
        assert_eq!(directive(line), by_pattern(line), "line {:?}", line);
    }
}

#[test]
fn differs_from_the_patterns_where_more_is_asked() {
    // four digits are no version of three
    assert_eq!(by_pattern("#version 1500"), version(500));
    assert_eq!(directive("#version 1500"), None);
    // delimiters that do not belong together
    assert_eq!(by_pattern("#include \"a.glsl>"), included("a.glsl"));
    assert_eq!(directive("#include \"a.glsl>"), None);
}

#[test]
fn white_space_is_what_the_standard_library_calls_so() {
    let mut c = 0u32;
    while c <= 0x10FFFF {
        if let Some(ch) = char::from_u32(c) {
            assert_eq!(is_space_char(ch), ch.is_whitespace(), "U+{:04X}", c);
            assert_eq!(is_digit_char(ch), ch.is_ascii_digit(), "U+{:04X}", c);
        }
        c += 1;
    }
}

#[test]
fn decimal_numerals() {
    assert_eq!(decimal_string(0), "0");
    assert_eq!(decimal_string(7), "7");
    assert_eq!(decimal_string(10), "10");
    assert_eq!(decimal_string(110), "110");
    assert_eq!(decimal_string(4096), "4096");
    assert_eq!(decimal_string(1234567890), "1234567890");
    assert_eq!(decimal_string(usize::MAX), format!("{}", usize::MAX));
}

#[test]
fn lines_are_joined_with_line_feeds() {
    assert_eq!(join_lines(&vec![]), "");
    assert_eq!(join_lines(&vec![String::from("a")]), "a");
    assert_eq!(join_lines(&vec![String::from("a"), String::new(), String::from("b")]), "a\n\nb");
    assert_eq!(join_lines(&vec![String::new(), String::new()]), "\n");
}

#[test]
fn text_is_split_at_line_ends() {
    assert_eq!(split_lines(""), Vec::<String>::new());
    assert_eq!(split_lines("a"), vec!["a"]);
    assert_eq!(split_lines("a\n"), vec!["a"]);
    assert_eq!(split_lines("a\nb"), vec!["a", "b"]);
    assert_eq!(split_lines("a\r\nb\r\n"), vec!["a", "b"]);
    assert_eq!(split_lines("\n"), vec![""]);
    assert_eq!(split_lines("\n\n"), vec!["", ""]);
    assert_eq!(split_lines("a\n\nb"), vec!["a", "", "b"]);
    assert_eq!(split_lines("a\rb\n"), vec!["a\rb"]);
    assert_eq!(split_lines("a\r\r\n"), vec!["a\r"]);
    assert_eq!(split_lines("a\r"), vec!["a\r"]);
    assert_eq!(split_lines("über\nmaß"), vec!["über", "maß"]);
}

#[test]
fn text_is_split_as_the_standard_library_splits() {
    let texts = [
        "",
        "a",
        "a\n",
        "\n",
        "\r\n",
        "\r",
        "a\r\nb",
        "a\n\r\nb\r",
        "one\ntwo\nthree\n\n",
        "\n\n\n",
        "x\r\r\ny",
        "tab\there\n  indented\n",
    ];
    for text in texts.iter() {
        let expected: Vec<String> = text.lines().map(String::from).collect();
        assert_eq!(split_lines(text), expected, "text {:?}", text);
    }
}

#[test]
fn annotation_finds_the_first_version_and_every_include() {
    let lines: Vec<String> = [
        "// shader",
        "#version 330",
        "#include \"a.glsl\"",
        "#version 150",
        "void main() {}",
        "#include <b.glsl>",
        "#include broken",
    ]
    .iter()
    .map(|s| String::from(*s))
    .collect();
    let src = AnnotatedGLSL::annotate(String::from("s.glsl"), lines, ModTime { nanos: 5 });
    assert_eq!(src.version_pragma, Some((1, 330)));
    assert_eq!(src.includes.len(), 2);
    assert_eq!(src.includes.get(&2), Some(&String::from("a.glsl")));
    assert_eq!(src.includes.get(&5), Some(&String::from("b.glsl")));
    assert_eq!(src.targets(), vec!["a.glsl", "b.glsl"]);
    assert_eq!(src.path, "s.glsl");
    assert_eq!(src.lines.len(), 7);
    assert_eq!(src.lines[6], "#include broken");
}
