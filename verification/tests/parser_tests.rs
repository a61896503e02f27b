use cross_file::directive::parse_directives;
use cross_file::types::CallSiteSpec;

#[test]
fn backward_directive_with_line() {
    let meta = parse_directives(b"# @lsp-sourced-by helpers/util.R line=5");
    assert_eq!(meta.sourced_by.len(), 1);
    assert_eq!(meta.sourced_by[0].path, b"helpers/util.R".to_vec());
    assert!(matches!(meta.sourced_by[0].call_site, CallSiteSpec::Line(4)));
}

#[test]
fn backward_synonyms_agree() {
    let texts: [&[u8]; 3] = [
        b"# @lsp-sourced-by helpers/util.R",
        b"# @lsp-run-by helpers/util.R",
        b"# @lsp-included-by helpers/util.R",
    ];
    for text in texts {
        let meta = parse_directives(text);
        assert_eq!(meta.sourced_by.len(), 1);
        assert_eq!(meta.sourced_by[0].path, b"helpers/util.R".to_vec());
        assert!(matches!(meta.sourced_by[0].call_site, CallSiteSpec::Default));
    }
}

#[test]
fn backward_synonyms_with_colon_and_quotes() {
    let texts: [&[u8]; 4] = [
        b"# @lsp-sourced-by: helpers/util.R",
        b"# @lsp-run-by: \"helpers/util.R\"",
        b"# @lsp-included-by 'helpers/util.R'",
        b"## @lsp-sourced-by helpers/util.R",
    ];
    for text in texts {
        let meta = parse_directives(text);
        assert_eq!(meta.sourced_by.len(), 1);
        assert_eq!(meta.sourced_by[0].path, b"helpers/util.R".to_vec());
    }
}

#[test]
fn working_directory_synonyms_agree() {
    let texts: [&[u8]; 6] = [
        b"# @lsp-working-directory sub/dir",
        b"# @lsp-working-dir sub/dir",
        b"# @lsp-current-directory sub/dir",
        b"# @lsp-current-dir sub/dir",
        b"# @lsp-cd sub/dir",
        b"# @lsp-wd sub/dir",
    ];
    for text in texts {
        let meta = parse_directives(text);
        assert_eq!(meta.working_directory, Some(b"sub/dir".to_vec()));
    }
}

#[test]
fn working_directory_last_wins() {
    let meta = parse_directives(b"# @lsp-cd one\n# @lsp-wd two");
    assert_eq!(meta.working_directory, Some(b"two".to_vec()));
}

#[test]
fn match_parameter_either_quote() {
    let m1 = parse_directives(b"# @lsp-sourced-by p.R match=\"foo(x, y)\"");
    assert!(matches!(&m1.sourced_by[0].call_site,
        CallSiteSpec::Match(p) if p == b"foo(x, y)"));
    let m2 = parse_directives(b"# @lsp-sourced-by p.R match='foo(x, y)'");
    assert!(matches!(&m2.sourced_by[0].call_site,
        CallSiteSpec::Match(p) if p == b"foo(x, y)"));
}

#[test]
fn later_parameter_wins() {
    let meta = parse_directives(b"# @lsp-sourced-by p.R line=3 match='f()'");
    assert!(matches!(&meta.sourced_by[0].call_site,
        CallSiteSpec::Match(p) if p == b"f()"));
}

#[test]
fn line_one_becomes_zero_based() {
    let meta = parse_directives(b"# @lsp-sourced-by p.R line=1");
    assert!(matches!(meta.sourced_by[0].call_site, CallSiteSpec::Line(0)));
}

#[test]
fn line_zero_is_malformed() {
    let meta = parse_directives(b"# @lsp-sourced-by p.R line=0");
    assert!(matches!(meta.sourced_by[0].call_site, CallSiteSpec::Default));
}

#[test]
fn forward_directives_in_order() {
    let meta = parse_directives(b"# @lsp-source a.R\n# @lsp-sources b.R\nx <- 1");
    assert_eq!(meta.sources.len(), 2);
    assert_eq!(meta.sources[0].path, b"a.R".to_vec());
    assert_eq!(meta.sources[1].path, b"b.R".to_vec());
}

#[test]
fn ignore_lines_are_recorded() {
    let meta = parse_directives(b"x <- 1 # @lsp-ignore\n# @lsp-ignore-next\ny <- 2");
    assert_eq!(meta.ignored_lines, vec![0]);
    assert_eq!(meta.ignored_next_lines, vec![1]);
}

#[test]
fn unknown_keywords_are_skipped() {
    let meta = parse_directives(b"# @lsp-unknown x\n# plain comment\ncode()");
    assert_eq!(meta.sourced_by.len(), 0);
    assert_eq!(meta.sources.len(), 0);
    assert!(meta.working_directory.is_none());
}

#[test]
fn malformed_directive_does_not_stop_parsing() {
    let meta = parse_directives(b"# @lsp-sourced-by\n# @lsp-source ok.R");
    assert_eq!(meta.sourced_by.len(), 0);
    assert_eq!(meta.sources.len(), 1);
    assert_eq!(meta.sources[0].path, b"ok.R".to_vec());
}

#[test]
fn directive_must_open_its_comment() {
    let meta = parse_directives(b"# note @lsp-sourced-by p.R");
    assert_eq!(meta.sourced_by.len(), 0);
}

#[test]
fn empty_input_parses_to_empty_metadata() {
    let meta = parse_directives(b"");
    assert_eq!(meta.sourced_by.len(), 0);
    assert_eq!(meta.sources.len(), 0);
    assert!(meta.working_directory.is_none());
    assert!(meta.ignored_lines.is_empty());
    assert!(meta.ignored_next_lines.is_empty());
}
