use zhtta::dynamic::{split_dynamic_page, DynamicPage, PagePiece};

fn text(s: &[u8]) -> PagePiece {
    PagePiece::Text(s.to_vec())
}

fn command(s: &[u8]) -> PagePiece {
    PagePiece::Command(s.to_vec())
}

#[test]
fn page_without_comments_is_sent_whole() {
    assert_eq!(
        split_dynamic_page(b"<html>hello</html>"),
        DynamicPage { pieces: vec![text(b"<html>hello</html>")], complete: true }
    );
    assert_eq!(split_dynamic_page(b""), DynamicPage { pieces: vec![text(b"")], complete: true });
}

#[test]
fn plain_comment_is_kept() {
    assert_eq!(
        split_dynamic_page(b"a<!-- x -->b"),
        DynamicPage { pieces: vec![text(b"a"), text(b"<!-- x -->"), text(b"b")], complete: true }
    );
}

#[test]
fn exec_comment_runs_command_before_comment() {
    let page = b"x<!--#exec cmd=\"ls -l\" -->y";
    assert_eq!(
        split_dynamic_page(page),
        DynamicPage {
            pieces: vec![
                text(b"x"),
                command(b"ls -l"),
                text(b"<!--#exec cmd=\"ls -l\" -->"),
                text(b"y"),
            ],
            complete: true,
        }
    );
}

#[test]
fn two_commands_in_order() {
    let page = b"<!--#exec cmd=\"date\"-->mid<!--#exec cmd=\"echo hi | wc\"-->";
    assert_eq!(
        split_dynamic_page(page),
        DynamicPage {
            pieces: vec![
                text(b""),
                command(b"date"),
                text(b"<!--#exec cmd=\"date\"-->"),
                text(b"mid"),
                command(b"echo hi | wc"),
                text(b"<!--#exec cmd=\"echo hi | wc\"-->"),
                text(b""),
            ],
            complete: true,
        }
    );
}

#[test]
fn comment_without_end_stops_the_page() {
    assert_eq!(
        split_dynamic_page(b"a<!-- no end"),
        DynamicPage { pieces: vec![text(b"a")], complete: false }
    );
}

#[test]
fn end_before_start_stops_the_page() {
    assert_eq!(
        split_dynamic_page(b"-->x<!--"),
        DynamicPage { pieces: vec![text(b"-->x")], complete: false }
    );
}

#[test]
fn directive_without_quote_stops_the_page() {
    assert_eq!(
        split_dynamic_page(b"<!--#exec cmd=-->"),
        DynamicPage { pieces: vec![text(b"")], complete: false }
    );
}

#[test]
fn directive_cut_inside_a_character_stops_the_page() {
    // the character after `#exec cmd=` takes two bytes
    let page = "<!--#exec cmd=\u{e9}ls\"-->".as_bytes();
    assert_eq!(split_dynamic_page(page), DynamicPage { pieces: vec![text(b"")], complete: false });
}

#[test]
fn text_of_a_complete_page_is_the_page() {
    let page: &[u8] = b"<p>1</p><!--#exec cmd=\"a\"--><p>2</p><!-- c --><!--#exec cmd=\"b\" x-->end";
    let result = split_dynamic_page(page);
    assert!(result.complete);
    let mut all = Vec::new();
    for p in &result.pieces {
        if let PagePiece::Text(t) = p {
            all.extend_from_slice(t);
        }
    }
    assert_eq!(all, page.to_vec());
}
