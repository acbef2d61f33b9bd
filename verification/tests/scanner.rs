use include_graph::file_node::FileNode;
use include_graph::find_includes::{parse_directive, scan_text_for_includes};

fn user(name: &str) -> FileNode {
    FileNode::new(name, false)
}

fn system(name: &str) -> FileNode {
    FileNode::new(name, true)
}

fn span_of(line: &str) -> Option<(usize, usize, bool)> {
    let chars: Vec<char> = line.chars().collect();
    parse_directive(&chars)
}

#[test]
fn angle_brackets_mean_system() {
    assert_eq!(scan_text_for_includes("#include <vector>"), vec![system("vector")]);
}

#[test]
fn quotes_mean_user() {
    assert_eq!(scan_text_for_includes("#include \"local.h\""), vec![user("local.h")]);
}

#[test]
fn blanks_before_and_between_tokens_are_skipped() {
    assert_eq!(scan_text_for_includes("  \t# \t include\t  <a/b.h>"), vec![system("a/b.h")]);
    assert_eq!(scan_text_for_includes("#include\"x.h\""), vec![user("x.h")]);
    assert_eq!(scan_text_for_includes("#include<x.h>"), vec![system("x.h")]);
}

#[test]
fn each_line_is_matched_from_its_start() {
    let text = "// header\n#include <map>\nint x;\n  #include \"inc_1.h\"\n\n#include <set>\n";
    assert_eq!(scan_text_for_includes(text), vec![system("map"), user("inc_1.h"), system("set")]);
}

#[test]
fn directive_must_begin_the_line() {
    assert!(scan_text_for_includes("int x; #include <map>").is_empty());
    assert!(scan_text_for_includes("// #include <map>").is_empty());
    assert!(scan_text_for_includes("\n\n").is_empty());
    assert!(scan_text_for_includes("").is_empty());
}

#[test]
fn disabled_directives_are_still_reported() {
    let text = "#if 0\n#include \"old.h\"\n#endif\n/*\n#include <gone>\n*/\n";
    assert_eq!(scan_text_for_includes(text), vec![user("old.h"), system("gone")]);
}

#[test]
fn reference_runs_to_the_last_closer_of_the_line() {
    assert_eq!(scan_text_for_includes("#include <a.h> // see <b.h>"), vec![system("a.h> // see <b.h")]);
    assert_eq!(scan_text_for_includes("#include \"a.h\" trailing"), vec![user("a.h")]);
    assert_eq!(scan_text_for_includes("#include <a.h\""), vec![system("a.h")]);
    assert_eq!(scan_text_for_includes("#include <>"), vec![system("")]);
}

#[test]
fn lines_that_are_no_directive_are_passed_over() {
    assert!(scan_text_for_includes("#include <open").is_empty());
    assert!(scan_text_for_includes("#include \"open").is_empty());
    assert!(scan_text_for_includes("#include").is_empty());
    assert!(scan_text_for_includes("#includes <a>").is_empty());
    assert!(scan_text_for_includes("#inclu <a>").is_empty());
    assert!(scan_text_for_includes("#define X <a>").is_empty());
    assert!(scan_text_for_includes("include <a>").is_empty());
    assert!(scan_text_for_includes("#\ninclude <a>").is_empty());
    assert!(scan_text_for_includes("#include\n<a>").is_empty());
}

#[test]
fn carriage_return_and_other_characters_are_ordinary() {
    assert_eq!(scan_text_for_includes("#include \"a.h\"\r\n#include <b>\r\n"), vec![user("a.h"), system("b")]);
    assert_eq!(scan_text_for_includes("#include \"grüße/π.h\""), vec![user("grüße/π.h")]);
    assert!(scan_text_for_includes("\u{a0}#include <a>").is_empty());
}

#[test]
fn span_of_a_directive() {
    assert_eq!(span_of("#include <vector>"), Some((10, 16, true)));
    assert_eq!(span_of("  #  include  \"a\" \"b\""), Some((15, 20, false)));
    assert_eq!(span_of("#include <>"), Some((10, 10, true)));
    assert_eq!(span_of("#include <"), None);
    assert_eq!(span_of(""), None);
    assert_eq!(span_of("#"), None);
    assert_eq!(span_of("   "), None);
}

const SAMPLES: [&str; 24] = [
    "#include <vector>",
    "#include \"local.h\"",
    "  \t#\t include \t<a/b.h>  // trailing",
    "#include <a.h> // see <b.h>",
    "#include \"a.h\" \"b.h\"",
    "#include <a.h\"",
    "#include \"a.h>",
    "#include <>",
    "#include \"\"",
    "#include <",
    "#include \"",
    "#include",
    "#includes <a>",
    "#include_next <a>",
    "# include<a>x>y\"z",
    "int x; #include <a>",
    "// #include <a>",
    "#define A <a>",
    "",
    "#",
    "#include \"a.h\"\r",
    "\u{a0}#include <a>",
    "#include <gr\u{fc}\u{df}e/\u{3c0}.h>",
    "#\u{a0}include <a>",
];

fn with_regex(text: &str) -> Vec<FileNode> {
    let re = regex::Regex::new("(?m:^[[:blank:]]*)#[[:blank:]]*include[[:blank:]]*([<\"])(.*)[>\"]").unwrap();
    let mut found = Vec::new();
    for cap in re.captures_iter(text) {
        let is_system = cap.get(1).map_or(false, |sym| sym.as_str() == "<");
        if let Some(name) = cap.get(2) {
            found.push(FileNode::new(name.as_str(), is_system));
        }
    }
    found
}

#[test]
fn scan_agrees_with_the_directive_as_a_regular_expression() {
    for sample in SAMPLES.iter() {
        assert_eq!(scan_text_for_includes(sample), with_regex(sample), "on {:?}", sample);
    }
    let mut whole = String::new();
    for sample in SAMPLES.iter() {
        whole.push_str(sample);
        whole.push('\n');
        assert_eq!(scan_text_for_includes(&whole), with_regex(&whole), "on {:?}", whole);
    }
    let mut joined = String::new();
    for sample in SAMPLES.iter().rev() {
        joined.push_str(sample);
        joined.push_str("\n\n \n");
    }
    joined.push_str("#include <last>");
    assert_eq!(scan_text_for_includes(&joined), with_regex(&joined));
}
