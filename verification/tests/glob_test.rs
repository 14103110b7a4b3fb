use seekrs::glob::glob_match;

#[test]
fn glob_wildcards() {
    assert!(glob_match("main.rs", "*.rs"));
    assert!(glob_match("Main.RS", "*.rs"));
    assert!(glob_match("main.rs", "*.RS"));
    assert!(!glob_match("readme.md", "*.rs"));
    assert!(glob_match("abc", "a*c"));
    assert!(glob_match("ac", "a*c"));
    assert!(!glob_match("a", "a*a"));
    assert!(glob_match("aa", "a*a"));
    assert!(glob_match("test_foo.py", "test_*.py"));
    assert!(!glob_match("xtest.py", "test*"));
    assert!(glob_match("anything", "*"));
    assert!(glob_match("", "*"));
    assert!(glob_match("abcabc", "*b*c"));
    assert!(!glob_match("abcab", "*b*c"));
    assert!(glob_match("server.rs", "s**s"));
    assert!(!glob_match("server.rs", "s**r"));
}

#[test]
fn glob_plain_is_substring() {
    assert!(glob_match("main.rs", "main"));
    assert!(glob_match("config.toml", "FIG"));
    assert!(glob_match("x", ""));
    assert!(!glob_match("main.rs", "mian"));
}

#[test]
fn glob_name_matches_itself() {
    for name in ["a*b", "main.rs", "*", "Weird*Name.TXT", ""] {
        assert!(glob_match(name, name));
    }
}
