use gitjuggling::gitmodules::{GitModules, ParseError};

#[test]
fn test_parse_gitmodules() {
    let contents = "
[submodule \"foobar\"]
    path = foo
    url = git@github.com:foo/bar.git
[submodule \"cpc\"]
    path = cpclol
    url = git@github.com:foo/cpc.git

[submodule \"yep\"]
    path = yop
    url = git@github.com:foo/yop.git
    branch = master
    foo = bar";

    let result = GitModules::parse(contents);
    assert!(result.is_ok());

    let gitmodules = result.unwrap();
    assert_eq!(3, gitmodules.submodules.len());

    let submodule1 = &gitmodules.submodules[0];
    assert_eq!("foobar", submodule1.name);
    assert_eq!("foo", submodule1.path.as_str());
    assert_eq!("git@github.com:foo/bar.git", submodule1.url);

    let submodule2 = &gitmodules.submodules[1];
    assert_eq!("cpc", submodule2.name);
    assert_eq!("cpclol", submodule2.path.as_str());
    assert_eq!("git@github.com:foo/cpc.git", submodule2.url);

    let submodule3 = &gitmodules.submodules[2];
    assert_eq!("yep", submodule3.name);
    assert_eq!("yop", submodule3.path.as_str());
    assert_eq!("git@github.com:foo/yop.git", submodule3.url);
    assert_eq!(Some("master"), submodule3.branch.as_deref());
}

#[test]
fn parse_keeps_absent_branch_empty() {
    let g = GitModules::parse("[submodule \"a\"]\n\tpath = x\n\turl = u\n").unwrap();
    assert_eq!(1, g.submodules.len());
    assert_eq!(None, g.submodules[0].branch);
    assert_eq!("x", g.submodules[0].path);
}

#[test]
fn header_without_quotes_is_malformed() {
    let r = GitModules::parse("[submodule foo]");
    assert!(matches!(r, Err(ParseError::MissingOpeningQuote)));
}

#[test]
fn unterminated_name_is_malformed() {
    let r = GitModules::parse("[submodule \"foo");
    assert!(matches!(r, Err(ParseError::MissingClosingQuote)));
}

#[test]
fn text_without_header_is_malformed() {
    let r = GitModules::parse("path = foo\n");
    assert!(matches!(r, Err(ParseError::MissingSectionHeader)));
}

#[test]
fn malformed_later_section_fails_the_whole_file() {
    let r = GitModules::parse("[submodule \"a\"]\npath = a\n[submodule b]\npath = b\n");
    assert!(matches!(r, Err(ParseError::MissingOpeningQuote)));
}

#[test]
fn trailing_text_without_equals_is_malformed() {
    let r = GitModules::parse("[submodule \"a\"]\npath = a\ngarbage");
    assert!(matches!(r, Err(ParseError::MissingSectionHeader)));
}

#[test]
fn empty_and_blank_texts_declare_nothing() {
    assert_eq!(0, GitModules::parse("").unwrap().submodules.len());
    assert_eq!(0, GitModules::parse(" \n\t\n").unwrap().submodules.len());
}

#[test]
fn section_may_end_with_the_text() {
    let g = GitModules::parse("[submodule \"only\"]").unwrap();
    assert_eq!(1, g.submodules.len());
    assert_eq!("only", g.submodules[0].name);
    assert_eq!("", g.submodules[0].path);
    assert_eq!("", g.submodules[0].url);
}

#[test]
fn later_key_wins_and_values_are_trimmed() {
    let g = GitModules::parse("[submodule \"a\"]\npath = one\npath =\u{a0} two \u{3000}\r\n").unwrap();
    assert_eq!("two", g.submodules[0].path);
}

#[test]
fn name_keeps_inner_text() {
    let g = GitModules::parse("[submodule \" a b \"]\n").unwrap();
    assert_eq!(" a b ", g.submodules[0].name);
}

#[test]
fn contains_matches_whole_paths() {
    let g = GitModules::parse("[submodule \"a\"]\npath = lib\n[submodule \"b\"]\npath = vendor/x\n").unwrap();
    assert!(g.contains("lib"));
    assert!(g.contains("vendor/x"));
    assert!(!g.contains("li"));
    assert!(!g.contains("x"));
    assert!(!g.contains(""));
}
