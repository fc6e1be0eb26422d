use wikilinker::links::{find_reference, format_link, stub_link};
use wikilinker::location::{build_output_path, stem_of, Location};
use wikilinker::relpath::{encode_spaces, relative_path};
use wikilinker::resolve::resolve;
use wikilinker::rewrite::find_wikilinks;

fn loc(segments: &[&str]) -> Location {
    Location { segments: segments.iter().map(|s| s.as_bytes().to_vec()).collect() }
}

fn corpus_two() -> Vec<Location> {
    vec![loc(&["root", "x.md"]), loc(&["root", "sub", "y.md"])]
}

#[test]
fn test_no_tokens_unchanged() {
    let entries = corpus_two();
    let here = loc(&["root", "x.md"]);
    let text = b"plain text, [single] brackets, (parens), no tokens at all";
    let out = find_wikilinks(text, &entries, &here);
    assert_eq!(out, text.to_vec());
}

#[test]
fn test_end_to_end_scenario() {
    let entries = corpus_two();
    let x = loc(&["root", "x.md"]);
    let y = loc(&["root", "sub", "y.md"]);
    let out_x = find_wikilinks(b"See [[y]]", &entries, &x);
    assert_eq!(out_x, b"See [y](sub/y.md)".to_vec());
    let out_y = find_wikilinks(b"no refs", &entries, &y);
    assert_eq!(out_y, b"no refs".to_vec());
}

#[test]
fn test_stub_unmatched() {
    let entries = corpus_two();
    let here = loc(&["root", "x.md"]);
    let out = find_wikilinks(b"See [[zzz]]", &entries, &here);
    assert_eq!(out, b"See [zzz](./)".to_vec());
}

#[test]
fn test_empty_name_is_stub() {
    let entries = corpus_two();
    let here = loc(&["root", "x.md"]);
    let out = find_wikilinks(b"a[[]]b", &entries, &here);
    assert_eq!(out, b"a[](./)b".to_vec());
}

#[test]
fn test_tie_break_first_wins() {
    let here = loc(&["root", "a", "q.md"]);
    let entries = vec![loc(&["root", "a", "n.md"]), loc(&["root", "b", "n.md"])];
    let out = find_wikilinks(b"[[n]]", &entries, &here);
    assert_eq!(out, b"[n](n.md)".to_vec());
    // Same corpus, same order: the same resolution every time.
    let again = find_wikilinks(b"[[n]]", &entries, &here);
    assert_eq!(again, out);
    // The reversed order picks the other document.
    let entries_rev = vec![loc(&["root", "b", "n.md"]), loc(&["root", "a", "n.md"])];
    let out_rev = find_wikilinks(b"[[n]]", &entries_rev, &here);
    assert_eq!(out_rev, b"[n](../b/n.md)".to_vec());
}

#[test]
fn test_space_encoding() {
    let entries = vec![loc(&["root", "my note.md"]), loc(&["root", "x.md"])];
    let here = loc(&["root", "x.md"]);
    let out = find_wikilinks(b"go [[my note]]", &entries, &here);
    assert_eq!(out, b"go [my note](my%20note.md)".to_vec());
    let path_part = &out[b"go [my note](".len()..out.len() - 1];
    assert!(!path_part.contains(&b' '));
}

#[test]
fn test_encode_spaces_direct() {
    assert_eq!(encode_spaces(b"a b c"), b"a%20b%20c".to_vec());
    assert_eq!(encode_spaces(b"nospace"), b"nospace".to_vec());
    assert_eq!(encode_spaces(b""), b"".to_vec());
}

#[test]
fn test_adjacent_tokens() {
    let entries = corpus_two();
    let here = loc(&["root", "x.md"]);
    let out = find_wikilinks(b"[[y]][[zzz]]", &entries, &here);
    assert_eq!(out, b"[y](sub/y.md)[zzz](./)".to_vec());
}

#[test]
fn test_unclosed_token_kept() {
    let entries = corpus_two();
    let here = loc(&["root", "x.md"]);
    let text = b"open [[name with no close";
    let out = find_wikilinks(text, &entries, &here);
    assert_eq!(out, text.to_vec());
}

#[test]
fn test_first_close_ends_token() {
    let entries = corpus_two();
    let here = loc(&["root", "x.md"]);
    // The first `]]` closes the token, so the name is `a]b`.
    let out = find_wikilinks(b"[[a]b]]", &entries, &here);
    assert_eq!(out, b"[a]b](./)".to_vec());
}

#[test]
fn test_slash_in_name_never_resolves() {
    let entries = corpus_two();
    let here = loc(&["root", "x.md"]);
    let out = find_wikilinks(b"[[sub/y]]", &entries, &here);
    assert_eq!(out, b"[sub/y](./)".to_vec());
}

#[test]
fn test_open_brackets_inside_name() {
    let entries = corpus_two();
    let here = loc(&["root", "x.md"]);
    // A name may contain `[[`; only the first `]]` closes the token.
    let out = find_wikilinks(b"[[a[[b]]", &entries, &here);
    assert_eq!(out, b"[a[[b](./)".to_vec());
}

#[test]
fn test_close_before_open_is_plain_text() {
    let entries = corpus_two();
    let here = loc(&["root", "x.md"]);
    let out = find_wikilinks(b"]] then [[y]]", &entries, &here);
    assert_eq!(out, b"]] then [y](sub/y.md)".to_vec());
}

#[test]
fn test_self_reference() {
    let entries = corpus_two();
    let here = loc(&["root", "x.md"]);
    let out = find_wikilinks(b"me: [[x]]", &entries, &here);
    assert_eq!(out, b"me: [x](x.md)".to_vec());
}

#[test]
fn test_stem_of_forms() {
    assert_eq!(stem_of(b"y.md"), b"y".to_vec());
    assert_eq!(stem_of(b"archive.tar.gz"), b"archive.tar".to_vec());
    assert_eq!(stem_of(b"noext"), b"noext".to_vec());
    assert_eq!(stem_of(b".hidden"), b".hidden".to_vec());
    assert_eq!(stem_of(b"trailing."), b"trailing".to_vec());
    assert_eq!(stem_of(b""), b"".to_vec());
}

#[test]
fn test_resolve_indexes() {
    let entries = corpus_two();
    assert_eq!(resolve(b"x", &entries), Some(0));
    assert_eq!(resolve(b"y", &entries), Some(1));
    assert_eq!(resolve(b"zzz", &entries), None);
}

#[test]
fn test_relative_path_forms() {
    // Same directory.
    let t = loc(&["root", "a.md"]);
    let r = loc(&["root", "b.md"]);
    assert_eq!(relative_path(&t, &r), Some(b"a.md".to_vec()));
    // Target above the referencing document.
    let t2 = loc(&["root", "a.md"]);
    let r2 = loc(&["root", "sub", "b.md"]);
    assert_eq!(relative_path(&t2, &r2), Some(b"../a.md".to_vec()));
    // Target in a sibling directory.
    let t3 = loc(&["root", "one", "a.md"]);
    let r3 = loc(&["root", "two", "b.md"]);
    assert_eq!(relative_path(&t3, &r3), Some(b"../one/a.md".to_vec()));
    // A referencing location with no segments has no directory to start from.
    let r4 = Location { segments: vec![] };
    assert_eq!(relative_path(&t3, &r4), None);
}

#[test]
fn test_format_link_and_stub() {
    let target = loc(&["root", "sub", "y.md"]);
    let here = loc(&["root", "x.md"]);
    assert_eq!(format_link(&target, b"y", &here), b"[y](sub/y.md)".to_vec());
    assert_eq!(stub_link(b"gone"), b"[gone](./)".to_vec());
    // Relativizer failure renders the one token as an empty substitution.
    let nowhere = Location { segments: vec![] };
    assert_eq!(format_link(&target, b"y", &nowhere), Vec::<u8>::new());
}

#[test]
fn test_find_reference_both_outcomes() {
    let entries = corpus_two();
    let here = loc(&["root", "x.md"]);
    assert_eq!(find_reference(b"y", &entries, &here), b"[y](sub/y.md)".to_vec());
    assert_eq!(find_reference(b"missing", &entries, &here), b"[missing](./)".to_vec());
}

#[test]
fn test_build_output_path_mirrors_tree() {
    let entry = loc(&["root", "sub", "y.md"]);
    let input = loc(&["root"]);
    let output = loc(&["out"]);
    let built = build_output_path(&entry, &input, &output);
    assert_eq!(built.segments, loc(&["out", "sub", "y.md"]).segments);
    // An entry not below the input directory is appended whole.
    let stray = loc(&["elsewhere", "z.md"]);
    let built2 = build_output_path(&stray, &input, &output);
    assert_eq!(built2.segments, loc(&["out", "elsewhere", "z.md"]).segments);
}
