//! Server-side includes for dynamic (`.shtml`) pages: the page is sent as
//! it is, and for each comment that holds an `#exec cmd="..."` directive the
//! output of the command is sent just before the comment.
use vstd::prelude::*;
use vstd::slice::slice_subrange;
use crate::text::{
    copy_range, find, first_occurrence, first_occurrence_from, lemma_first_occurrence_from,
    lemma_first_occurrence_is, lemma_no_occurrence, lemma_occurrence_first_byte, lemma_occurs_in_part,
    occurs_at,
};

verus! {

/// `<!--`
pub open spec fn comment_open() -> Seq<u8> {
    seq![60u8, 33u8, 45u8, 45u8]
}

/// `-->`
pub open spec fn comment_close() -> Seq<u8> {
    seq![45u8, 45u8, 62u8]
}

/// `#exec cmd=`
pub open spec fn exec_directive() -> Seq<u8> {
    seq![35u8, 101u8, 120u8, 101u8, 99u8, 32u8, 99u8, 109u8, 100u8, 61u8]
}

/// `"`
pub open spec fn quote() -> Seq<u8> {
    seq![34u8]
}

fn comment_open_bytes() -> (r: Vec<u8>)
    ensures
        r@ == comment_open(),
{
    vec![60u8, 33u8, 45u8, 45u8]
}

fn comment_close_bytes() -> (r: Vec<u8>)
    ensures
        r@ == comment_close(),
{
    vec![45u8, 45u8, 62u8]
}

fn exec_directive_bytes() -> (r: Vec<u8>)
    ensures
        r@ == exec_directive(),
{
    vec![35u8, 101u8, 120u8, 101u8, 99u8, 32u8, 99u8, 109u8, 100u8, 61u8]
}

fn quote_bytes() -> (r: Vec<u8>)
    ensures
        r@ == quote(),
{
    vec![34u8]
}

/// In UTF-8 text `s`, index `k` is where a character starts (or the end).
pub open spec fn starts_char(s: Seq<u8>, k: int) -> bool {
    k == s.len() || s[k] < 0x80 || s[k] >= 0xc0
}

/// A part of what is sent for a dynamic page: text of the page, or a
/// command whose output is sent in its place.
#[derive(PartialEq, Eq, Debug)]
pub enum PagePiece {
    Text(Vec<u8>),
    Command(Vec<u8>),
}

/// The mathematical value of a `PagePiece`.
pub enum PieceView {
    Text(Seq<u8>),
    Command(Seq<u8>),
}

impl View for PagePiece {
    type V = PieceView;

    open spec fn view(&self) -> PieceView {
        match self {
            PagePiece::Text(t) => PieceView::Text(t@),
            PagePiece::Command(c) => PieceView::Command(c@),
        }
    }
}

/// What is sent for a dynamic page, in order; `complete` is false when the
/// page is malformed (a comment without its end, or a directive without its
/// closing quote), in which case the serving of the page stops after the
/// listed pieces.
#[derive(PartialEq, Eq, Debug)]
pub struct DynamicPage {
    pub pieces: Vec<PagePiece>,
    pub complete: bool,
}

/// The pieces sent for the page `s`, and whether the page is served to its end.
pub open spec fn dynamic_pieces(s: Seq<u8>) -> (Seq<PieceView>, bool)
    decreases s.len(),
{
    match first_occurrence(s, comment_open()) {
        None => (seq![PieceView::Text(s)], true),
        Some(ind) => {
            let before = PieceView::Text(s.subrange(0, ind));
            match first_occurrence(s, comment_close()) {
                None => (seq![before], false),
                Some(ie) => {
                    proof {
                        lemma_first_occurrence_from(s, comment_close(), 0);
                    }
                    let end = ie + 3;
                    if end < ind {
                        (seq![before], false)
                    } else {
                        let comment = s.subrange(ind, end);
                        let rest = dynamic_pieces(s.subrange(end, s.len() as int));
                        match first_occurrence(comment, exec_directive()) {
                            None => (seq![before, PieceView::Text(comment)] + rest.0, rest.1),
                            Some(c) => {
                                let k = c + 11;
                                if k > comment.len() || !starts_char(comment, k) {
                                    (seq![before], false)
                                } else {
                                    let tail = comment.subrange(k, comment.len() as int);
                                    match first_occurrence(tail, quote()) {
                                        None => (seq![before], false),
                                        Some(q) => (
                                            seq![
                                                before,
                                                PieceView::Command(tail.subrange(0, q)),
                                                PieceView::Text(comment),
                                            ] + rest.0,
                                            rest.1,
                                        ),
                                    }
                                }
                            },
                        }
                    }
                },
            }
        },
    }
}

/// The page text carried by a list of pieces (commands contribute nothing).
pub open spec fn page_text(pieces: Seq<PieceView>) -> Seq<u8>
    decreases pieces.len(),
{
    if pieces.len() == 0 {
        Seq::empty()
    } else {
        let t = match pieces[0] {
            PieceView::Text(t) => t,
            PieceView::Command(_) => Seq::empty(),
        };
        t + page_text(pieces.drop_first())
    }
}

/// The values of a list of pieces.
pub open spec fn piece_views(v: Seq<PagePiece>) -> Seq<PieceView> {
    v.map_values(|p: PagePiece| p@)
}

fn push_piece(out: &mut Vec<PagePiece>, p: PagePiece)
    ensures
        piece_views(final(out)@) == piece_views(old(out)@).push(p@),
{
    let ghost before = out@;
    out.push(p);
    assert(piece_views(out@) =~= piece_views(before).push(p@));
}

/// Splits a dynamic page into what is sent for it: the page text, with the
/// commands of its `#exec cmd="..."` directives placed before their comments.
pub fn split_dynamic_page(file: &[u8]) -> (page: DynamicPage)
    ensures
        piece_views(page.pieces@) == dynamic_pieces(file@).0,
        page.complete == dynamic_pieces(file@).1,
{
    let open = comment_open_bytes();
    let close = comment_close_bytes();
    let directive = exec_directive_bytes();
    let q_bytes = quote_bytes();
    let n = file.len();
    let mut out: Vec<PagePiece> = Vec::new();
    let mut pos: usize = 0;
    assert(file@.subrange(0, n as int) =~= file@);
    assert(piece_views(out@) =~= Seq::<PieceView>::empty());
    loop
        invariant
            n == file@.len(),
            pos <= n,
            open@ == comment_open(),
            close@ == comment_close(),
            directive@ == exec_directive(),
            q_bytes@ == quote(),
            piece_views(out@) + dynamic_pieces(file@.subrange(pos as int, n as int)).0
                == dynamic_pieces(file@).0,
            dynamic_pieces(file@.subrange(pos as int, n as int)).1 == dynamic_pieces(file@).1,
        decreases n - pos,
    {
        let rest = slice_subrange(file, pos, n);
        let ghost r = rest@;
        assert(r == file@.subrange(pos as int, n as int));
        match find(rest, open.as_slice()) {
            None => {
                let t = copy_range(rest, 0, rest.len());
                assert(t@ =~= r);
                push_piece(&mut out, PagePiece::Text(t));
                assert(piece_views(out@) =~= dynamic_pieces(file@).0);
                return DynamicPage { pieces: out, complete: true };
            },
            Some(ind) => {
                proof {
                    lemma_first_occurrence_from(r, comment_open(), 0);
                }
                let before = copy_range(rest, 0, ind);
                push_piece(&mut out, PagePiece::Text(before));
                match find(rest, close.as_slice()) {
                    None => {
                        assert(piece_views(out@) =~= dynamic_pieces(file@).0);
                        return DynamicPage { pieces: out, complete: false };
                    },
                    Some(ie) => {
                        proof {
                            lemma_first_occurrence_from(r, comment_close(), 0);
                        }
                        let end = ie + 3;
                        if end < ind {
                            assert(piece_views(out@) =~= dynamic_pieces(file@).0);
                            return DynamicPage { pieces: out, complete: false };
                        }
                        let comment = copy_range(rest, ind, end);
                        let ghost cm = comment@;
                        let ghost next = r.subrange(end as int, r.len() as int);
                        assert(next =~= file@.subrange(pos + end, n as int));
                        match find(comment.as_slice(), directive.as_slice()) {
                            None => {
                                push_piece(&mut out, PagePiece::Text(comment));
                                assert(piece_views(out@) + dynamic_pieces(next).0
                                    =~= dynamic_pieces(file@).0);
                            },
                            Some(c) => {
                                proof {
                                    lemma_first_occurrence_from(cm, exec_directive(), 0);
                                }
                                let k = c + 11;
                                if k > comment.len() || !(k == comment.len() || comment[k] < 0x80u8
                                    || comment[k] >= 0xc0u8) {
                                    assert(piece_views(out@) =~= dynamic_pieces(file@).0);
                                    return DynamicPage { pieces: out, complete: false };
                                }
                                let tail = slice_subrange(comment.as_slice(), k, comment.len());
                                match find(tail, q_bytes.as_slice()) {
                                    None => {
                                        assert(piece_views(out@) =~= dynamic_pieces(file@).0);
                                        return DynamicPage { pieces: out, complete: false };
                                    },
                                    Some(q) => {
                                        proof {
                                            lemma_first_occurrence_from(tail@, quote(), 0);
                                        }
                                        let command = copy_range(tail, 0, q);
                                        push_piece(&mut out, PagePiece::Command(command));
                                        push_piece(&mut out, PagePiece::Text(comment));
                                        assert(piece_views(out@) + dynamic_pieces(next).0
                                            =~= dynamic_pieces(file@).0);
                                    },
                                }
                            },
                        }
                        pos = pos + end;
                    },
                }
            },
        }
    }
}

/// Serving a dynamic page sends its text unchanged, only with command output
/// added: the page text of the pieces is the whole page when it is served to
/// its end, and a beginning of the page otherwise.
pub proof fn law_dynamic_page_keeps_text(s: Seq<u8>)
    ensures
        dynamic_pieces(s).1 ==> page_text(dynamic_pieces(s).0) == s,
        page_text(dynamic_pieces(s).0).len() <= s.len(),
        page_text(dynamic_pieces(s).0) == s.subrange(0, page_text(dynamic_pieces(s).0).len() as int),
    decreases s.len(),
{
    lemma_page_text_single(s);
    match first_occurrence(s, comment_open()) {
        None => {
            assert(s.subrange(0, s.len() as int) =~= s);
        },
        Some(ind) => {
            lemma_first_occurrence_from(s, comment_open(), 0);
            let before = s.subrange(0, ind);
            lemma_page_text_single(before);
            match first_occurrence(s, comment_close()) {
                None => {
                    assert(s.subrange(0, ind) =~= before);
                },
                Some(ie) => {
                    lemma_first_occurrence_from(s, comment_close(), 0);
                    let end = ie + 3;
                    if end < ind {
                        assert(s.subrange(0, ind) =~= before);
                    } else {
                        let comment = s.subrange(ind, end);
                        let tail_s = s.subrange(end, s.len() as int);
                        law_dynamic_page_keeps_text(tail_s);
                        let rest = dynamic_pieces(tail_s);
                        let rt = page_text(rest.0);
                        match first_occurrence(comment, exec_directive()) {
                            None => {
                                let ps = seq![PieceView::Text(before), PieceView::Text(comment)];
                                lemma_page_text_append(ps, rest.0);
                                lemma_page_text_two(before, comment);
                                assert(before + comment =~= s.subrange(0, end));
                                assert(s.subrange(0, end) + rt =~= s.subrange(0, end + rt.len()));
                                if rest.1 {
                                    assert(s.subrange(0, end) + tail_s =~= s);
                                }
                            },
                            Some(c) => {
                                let k = c + 11;
                                if k > comment.len() || !starts_char(comment, k) {
                                    assert(s.subrange(0, ind) =~= before);
                                } else {
                                    let tail = comment.subrange(k, comment.len() as int);
                                    match first_occurrence(tail, quote()) {
                                        None => {
                                            assert(s.subrange(0, ind) =~= before);
                                        },
                                        Some(q) => {
                                            let cmd = PieceView::Command(tail.subrange(0, q));
                                            let ps = seq![
                                                PieceView::Text(before),
                                                cmd,
                                                PieceView::Text(comment),
                                            ];
                                            lemma_page_text_append(ps, rest.0);
                                            lemma_page_text_three(before, tail.subrange(0, q), comment);
                                            assert(before + comment =~= s.subrange(0, end));
                                            assert(s.subrange(0, end) + rt =~= s.subrange(
                                                0,
                                                end + rt.len(),
                                            ));
                                            if rest.1 {
                                                assert(s.subrange(0, end) + tail_s =~= s);
                                            }
                                        },
                                    }
                                }
                            },
                        }
                    }
                },
            }
        },
    }
}

proof fn lemma_page_text_single(t: Seq<u8>)
    ensures
        page_text(seq![PieceView::Text(t)]) == t,
{
    let p = seq![PieceView::Text(t)];
    assert(p.drop_first() =~= Seq::<PieceView>::empty());
    assert(page_text(p.drop_first()) == Seq::<u8>::empty());
    assert(p[0] == PieceView::Text(t));
    assert(t + Seq::<u8>::empty() =~= t);
}

proof fn lemma_page_text_two(a: Seq<u8>, b: Seq<u8>)
    ensures
        page_text(seq![PieceView::Text(a), PieceView::Text(b)]) == a + b,
{
    let p = seq![PieceView::Text(a), PieceView::Text(b)];
    assert(p.drop_first() =~= seq![PieceView::Text(b)]);
    lemma_page_text_single(b);
}

proof fn lemma_page_text_three(a: Seq<u8>, c: Seq<u8>, b: Seq<u8>)
    ensures
        page_text(seq![PieceView::Text(a), PieceView::Command(c), PieceView::Text(b)]) == a + b,
{
    let p = seq![PieceView::Text(a), PieceView::Command(c), PieceView::Text(b)];
    let p1 = p.drop_first();
    assert(p1.drop_first() =~= seq![PieceView::Text(b)]);
    lemma_page_text_single(b);
    assert(p1[0] == PieceView::Command(c));
    assert(page_text(p1) == Seq::<u8>::empty() + page_text(p1.drop_first()));
    assert(Seq::<u8>::empty() + b =~= b);
    assert(p[0] == PieceView::Text(a));
    assert(page_text(p) == a + page_text(p1));
}

proof fn lemma_page_text_append(a: Seq<PieceView>, b: Seq<PieceView>)
    ensures
        page_text(a + b) == page_text(a) + page_text(b),
    decreases a.len(),
{
    if a.len() == 0 {
        assert(a + b =~= b);
        assert(Seq::<u8>::empty() + page_text(b) =~= page_text(b));
    } else {
        lemma_page_text_append(a.drop_first(), b);
        assert((a + b).drop_first() =~= a.drop_first() + b);
        assert((a + b)[0] == a[0]);
        let t = match a[0] {
            PieceView::Text(t) => t,
            PieceView::Command(_) => Seq::<u8>::empty(),
        };
        assert(t + (page_text(a.drop_first()) + page_text(b)) =~= (t + page_text(a.drop_first()))
            + page_text(b));
    }
}

/// `c` is one whole comment: it starts with `<!--` and its only `-->` is
/// the one it ends with.
pub open spec fn one_comment(c: Seq<u8>) -> bool {
    &&& c.len() >= 7
    &&& c.subrange(0, 4) == comment_open()
    &&& c.subrange(c.len() - 3, c.len() as int) == comment_close()
    &&& forall|j: int| occurs_at(c, comment_close(), j) ==> j == c.len() - 3
}

/// `t` holds no comment mark.
pub open spec fn no_comment_marks(t: Seq<u8>) -> bool {
    &&& forall|j: int| !occurs_at(t, comment_open(), j)
    &&& forall|j: int| !occurs_at(t, comment_close(), j)
}

/// No `<!--` starts before index `a` when none lies within the first `a`
/// bytes and a `<` stands at `a`.
proof fn lemma_no_open_before(s: Seq<u8>, a: int)
    requires
        0 <= a < s.len(),
        s[a] == 60u8,
        forall|j: int| !occurs_at(s.subrange(0, a), comment_open(), j),
    ensures
        forall|j: int| 0 <= j < a ==> !occurs_at(s, comment_open(), j),
{
    assert forall|j: int| 0 <= j < a implies !occurs_at(s, comment_open(), j) by {
        if j + 4 <= a {
            lemma_occurs_in_part(s, comment_open(), 0, s.subrange(0, a), j);
        } else if occurs_at(s, comment_open(), j) {
            assert(s.subrange(j, j + 4)[a - j] == s[a]);
        }
    }
}

/// In text without comment marks followed by a whole comment, the first
/// `<!--` is where the comment starts.
proof fn lemma_comment_start_found(t: Seq<u8>, c: Seq<u8>, r: Seq<u8>)
    requires
        forall|j: int| !occurs_at(t, comment_open(), j),
        c.len() >= 4,
        c.subrange(0, 4) == comment_open(),
    ensures
        first_occurrence(t + c + r, comment_open()) == Some(t.len() as int),
{
    let s = t + c + r;
    let tl = t.len() as int;
    let cr = c + r;
    assert(s =~= t + cr);
    assert(s.subrange(0, tl) =~= t);
    assert(s.subrange(tl, tl + 4) =~= comment_open()) by {
        assert(s.subrange(tl, tl + 4) =~= c.subrange(0, 4));
    }
    assert(s[tl] == 60u8) by {
        assert(s.subrange(tl, tl + 4)[0] == s[tl]);
    }
    lemma_no_open_before(s, tl);
    lemma_first_occurrence_is(s, comment_open(), 0, tl);
}

/// In text without comment marks followed by a whole comment, the first
/// `-->` is where the comment ends.
proof fn lemma_comment_end_found(t: Seq<u8>, c: Seq<u8>, r: Seq<u8>)
    requires
        forall|j: int| !occurs_at(t, comment_close(), j),
        one_comment(c),
    ensures
        first_occurrence(t + c + r, comment_close()) == Some(t.len() + c.len() - 3),
{
    let s = t + c + r;
    let tl = t.len() as int;
    let cl = c.len() as int;
    assert(s.subrange(0, tl) =~= t);
    assert(s.subrange(tl, tl + cl) =~= c);
    assert(s[tl] == 60u8) by {
        assert(c.subrange(0, 4)[0] == c[0]);
    }
    lemma_occurs_in_part(s, comment_close(), tl, c, tl + cl - 3);
    assert(occurs_at(c, comment_close(), cl - 3));
    assert forall|j: int| 0 <= j < tl + cl - 3 implies !occurs_at(s, comment_close(), j) by {
        if j + 3 <= tl {
            lemma_occurs_in_part(s, comment_close(), 0, t, j);
        } else if j < tl {
            if occurs_at(s, comment_close(), j) {
                assert(s.subrange(j, j + 3)[tl - j] == s[tl]);
            }
        } else {
            lemma_occurs_in_part(s, comment_close(), tl, c, j);
        }
    }
    lemma_first_occurrence_is(s, comment_close(), 0, tl + cl - 3);
}

/// In text without comment marks followed by a whole comment, the first
/// comment found is that comment.
proof fn lemma_comment_found(t: Seq<u8>, c: Seq<u8>, r: Seq<u8>)
    requires
        no_comment_marks(t),
        one_comment(c),
    ensures
        first_occurrence(t + c + r, comment_open()) == Some(t.len() as int),
        first_occurrence(t + c + r, comment_close()) == Some(t.len() + c.len() - 3),
        (t + c + r).subrange(0, t.len() as int) == t,
        (t + c + r).subrange(t.len() as int, (t.len() + c.len()) as int) == c,
        (t + c + r).subrange((t.len() + c.len()) as int, (t + c + r).len() as int) == r,
{
    let s = t + c + r;
    assert(s.subrange(0, t.len() as int) =~= t);
    assert(s.subrange(t.len() as int, (t.len() + c.len()) as int) =~= c);
    assert(s.subrange((t.len() + c.len()) as int, s.len() as int) =~= r);
    lemma_comment_start_found(t, c, r);
    lemma_comment_end_found(t, c, r);
}

/// `<!--#exec cmd=` followed by anything holds the directive at index 4.
proof fn lemma_directive_at_four(x: Seq<u8>)
    ensures
        occurs_at(comment_open() + exec_directive() + x, exec_directive(), 4),
{
    let p = comment_open() + exec_directive();
    let c = p + x;
    assert(p.subrange(4, 14) =~= exec_directive());
    assert(c.subrange(4, 14) =~= p.subrange(4, 14));
}

/// No directive starts inside `<!--`.
proof fn lemma_no_directive_in_open(x: Seq<u8>)
    ensures
        forall|j: int| 0 <= j < 4 ==> !occurs_at(comment_open() + x, exec_directive(), j),
{
    let c = comment_open() + x;
    assert forall|j: int| 0 <= j < 4 implies !occurs_at(c, exec_directive(), j) by {
        if occurs_at(c, exec_directive(), j) {
            lemma_occurrence_first_byte(c, exec_directive(), j);
            assert(c[j] == comment_open()[j]);
        }
    }
}

/// After `<!--`, a directive right at the start is the first one.
proof fn lemma_directive_found(x: Seq<u8>)
    ensures
        first_occurrence(comment_open() + exec_directive() + x, exec_directive()) == Some(4int),
{
    let c = comment_open() + exec_directive() + x;
    lemma_directive_at_four(x);
    assert(c =~= comment_open() + (exec_directive() + x));
    lemma_no_directive_in_open(exec_directive() + x);
    lemma_first_occurrence_is(c, exec_directive(), 0, 4);
}

/// In `cmd"z` with no double quote in `cmd`, the first double quote ends `cmd`.
proof fn lemma_quote_found(cmd: Seq<u8>, z: Seq<u8>)
    requires
        !cmd.contains(34u8),
    ensures
        first_occurrence(cmd + quote() + z, quote()) == Some(cmd.len() as int),
        (cmd + quote() + z).subrange(0, cmd.len() as int) == cmd,
{
    let tail = cmd + quote() + z;
    assert(tail.subrange(cmd.len() as int, (cmd.len() + 1) as int) =~= quote());
    assert forall|j: int| 0 <= j < cmd.len() implies !occurs_at(tail, quote(), j) by {
        if occurs_at(tail, quote(), j) {
            assert(tail.subrange(j, j + 1)[0] == tail[j]);
            assert(tail[j] == cmd[j]);
        }
    }
    lemma_first_occurrence_is(tail, quote(), 0, cmd.len() as int);
    assert(tail.subrange(0, cmd.len() as int) =~= cmd);
}

/// The command of the directive comment `<!--#exec cmd="cmd"y-->`.
proof fn lemma_directive_command(cmd: Seq<u8>, y: Seq<u8>)
    requires
        !cmd.contains(34u8),
        cmd.len() == 0 || starts_char(cmd, 0),
    ensures
        ({
            let c = comment_open() + exec_directive() + quote() + cmd + quote() + y + comment_close();
            &&& first_occurrence(c, exec_directive()) == Some(4int)
            &&& 15 <= c.len()
            &&& starts_char(c, 15)
            &&& first_occurrence(c.subrange(15, c.len() as int), quote()) == Some(cmd.len() as int)
            &&& c.subrange(15, c.len() as int).subrange(0, cmd.len() as int) == cmd
        }),
{
    let c = comment_open() + exec_directive() + quote() + cmd + quote() + y + comment_close();
    let z = y + comment_close();
    let x = quote() + cmd + quote() + z;
    assert(c =~= comment_open() + exec_directive() + x);
    lemma_directive_found(x);
    let tail = c.subrange(15, c.len() as int);
    assert(tail =~= cmd + quote() + z);
    lemma_quote_found(cmd, z);
    if cmd.len() > 0 {
        assert(c[15] == tail[0]);
    } else {
        assert(c[15] == tail[0]);
        assert(tail[0] == 34u8);
    }
}

/// A comment without a directive is passed through: text without comment
/// marks, then a whole comment holding no `#exec cmd=`, then any rest, are
/// sent as the text, the comment, and what the rest gives on its own.
pub proof fn law_plain_comment_passes_through(t: Seq<u8>, c: Seq<u8>, r: Seq<u8>)
    requires
        no_comment_marks(t),
        one_comment(c),
        forall|j: int| !occurs_at(c, exec_directive(), j),
    ensures
        dynamic_pieces(t + c + r) == (
            seq![PieceView::Text(t), PieceView::Text(c)] + dynamic_pieces(r).0,
            dynamic_pieces(r).1,
        ),
{
    lemma_comment_found(t, c, r);
    lemma_no_occurrence(c, exec_directive(), 0);
}

/// A directive's command is run before its comment is sent: text without
/// comment marks, then the comment `<!--#exec cmd="cmd"y-->` (`cmd` without
/// a double quote, `y` any text, the comment's only `-->` at its end), then
/// any rest, are sent as the text, the command `cmd`, the comment, and what
/// the rest gives on its own.
pub proof fn law_exec_comment_runs_command(t: Seq<u8>, cmd: Seq<u8>, y: Seq<u8>, r: Seq<u8>)
    requires
        no_comment_marks(t),
        !cmd.contains(34u8),
        cmd.len() == 0 || starts_char(cmd, 0),
        one_comment(
            comment_open() + exec_directive() + quote() + cmd + quote() + y + comment_close(),
        ),
    ensures
        ({
            let c = comment_open() + exec_directive() + quote() + cmd + quote() + y + comment_close();
            dynamic_pieces(t + c + r) == (
                seq![PieceView::Text(t), PieceView::Command(cmd), PieceView::Text(c)]
                    + dynamic_pieces(r).0,
                dynamic_pieces(r).1,
            )
        }),
{
    let c = comment_open() + exec_directive() + quote() + cmd + quote() + y + comment_close();
    lemma_comment_found(t, c, r);
    lemma_directive_command(cmd, y);
}

} // verus!
