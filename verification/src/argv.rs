//! The command-line language of the server's shell: splitting a command
//! line into arguments, splitting a pipeline into its stages, and reading
//! the redirections and the program of a single command.
use vstd::prelude::*;
use crate::text::copy_range;

verus! {

// ---------------------------------------------------------------------------
// Tokens
// ---------------------------------------------------------------------------

/// Reading `s` byte by byte: the non-empty fields between `sep` bytes that
/// are complete, and the field being read at the end.
pub open spec fn scan_tokens(s: Seq<u8>, sep: u8) -> (Seq<Seq<u8>>, Seq<u8>)
    decreases s.len(),
{
    if s.len() == 0 {
        (Seq::empty(), Seq::empty())
    } else {
        let (done, cur) = scan_tokens(s.drop_last(), sep);
        if s.last() == sep {
            if cur.len() > 0 {
                (done.push(cur), Seq::empty())
            } else {
                (done, Seq::empty())
            }
        } else {
            (done, cur.push(s.last()))
        }
    }
}

/// The non-empty fields of `s` separated by `sep`, in order (what splitting
/// at `sep` and dropping the empty parts gives).
pub open spec fn tokens(s: Seq<u8>, sep: u8) -> Seq<Seq<u8>> {
    let (done, cur) = scan_tokens(s, sep);
    if cur.len() > 0 {
        done.push(cur)
    } else {
        done
    }
}

/// The byte strings held by a vector of byte vectors.
pub open spec fn vecs_view(v: Seq<Vec<u8>>) -> Seq<Seq<u8>> {
    v.map_values(|x: Vec<u8>| x@)
}

/// Splits `s` at every `sep` and keeps the non-empty parts.
pub fn tokenize(s: &[u8], sep: u8) -> (r: Vec<Vec<u8>>)
    ensures
        vecs_view(r@) == tokens(s@, sep),
{
    let n = s.len();
    let mut done: Vec<Vec<u8>> = Vec::new();
    let mut cur: Vec<u8> = Vec::new();
    let mut i: usize = 0;
    assert(s@.subrange(0, 0) =~= Seq::<u8>::empty());
    assert(vecs_view(done@) =~= Seq::<Seq<u8>>::empty());
    while i < n
        invariant
            n == s@.len(),
            i <= n,
            (vecs_view(done@), cur@) == scan_tokens(s@.subrange(0, i as int), sep),
        decreases n - i,
    {
        let ghost pre = s@.subrange(0, i as int);
        assert(s@.subrange(0, i + 1).drop_last() =~= pre);
        assert(s@.subrange(0, i + 1).last() == s@[i as int]);
        if s[i] == sep {
            if cur.len() > 0 {
                let ghost dv = vecs_view(done@);
                let ghost cv = cur@;
                done.push(cur);
                cur = Vec::new();
                assert(vecs_view(done@) =~= dv.push(cv));
            }
        } else {
            cur.push(s[i]);
        }
        i = i + 1;
    }
    assert(s@.subrange(0, n as int) =~= s@);
    if cur.len() > 0 {
        let ghost dv = vecs_view(done@);
        let ghost cv = cur@;
        done.push(cur);
        assert(vecs_view(done@) =~= dv.push(cv));
    }
    done
}

/// `t` holds no separator and only bytes of `s`.
pub open spec fn token_of(t: Seq<u8>, s: Seq<u8>, sep: u8) -> bool {
    forall|j: int| 0 <= j < t.len() ==> #[trigger] t[j] != sep && s.contains(t[j])
}

/// Every token is non-empty, holds no separator, and holds only bytes of `s`.
pub proof fn lemma_tokens(s: Seq<u8>, sep: u8)
    ensures
        forall|i: int|
            0 <= i < tokens(s, sep).len() ==> (#[trigger] tokens(s, sep)[i]).len() > 0 && token_of(
                tokens(s, sep)[i],
                s,
                sep,
            ),
{
    lemma_scan_tokens(s, sep);
}

proof fn lemma_scan_tokens(s: Seq<u8>, sep: u8)
    ensures
        forall|i: int|
            0 <= i < scan_tokens(s, sep).0.len() ==> (#[trigger] scan_tokens(s, sep).0[i]).len() > 0
                && token_of(scan_tokens(s, sep).0[i], s, sep),
        token_of(scan_tokens(s, sep).1, s, sep),
    decreases s.len(),
{
    if s.len() > 0 {
        let p = s.drop_last();
        lemma_scan_tokens(p, sep);
        let (done, cur) = scan_tokens(p, sep);
        assert forall|t: Seq<u8>| token_of(t, p, sep) implies token_of(t, s, sep) by {
            assert forall|j: int| 0 <= j < t.len() implies #[trigger] t[j] != sep && s.contains(
                t[j],
            ) by {
                let k = choose|k: int| 0 <= k < p.len() && p[k] == t[j];
                assert(s[k] == t[j]);
            }
        }
        assert(s.contains(s.last())) by {
            assert(s[s.len() - 1] == s.last());
        }
        assert(token_of(cur, s, sep));
        assert forall|i: int| 0 <= i < done.len() implies done[i].len() > 0 && token_of(
            done[i],
            s,
            sep,
        ) by {
            assert(token_of(done[i], p, sep));
        }
        if s.last() == sep {
            if cur.len() > 0 {
                let d2 = done.push(cur);
                assert forall|i: int| 0 <= i < d2.len() implies d2[i].len() > 0 && token_of(
                    d2[i],
                    s,
                    sep,
                ) by {
                    if i < done.len() {
                        assert(d2[i] == done[i]);
                    }
                }
            }
            assert(token_of(Seq::<u8>::empty(), s, sep));
        } else {
            let c2 = cur.push(s.last());
            assert forall|j: int| 0 <= j < c2.len() implies #[trigger] c2[j] != sep && s.contains(
                c2[j],
            ) by {
                if j < cur.len() {
                    assert(c2[j] == cur[j]);
                }
            }
        }
    }
}

// ---------------------------------------------------------------------------
// Fields
// ---------------------------------------------------------------------------

/// Reading `s` byte by byte: the fields between `sep` bytes that are
/// complete (empty ones too), and the field being read at the end.
pub open spec fn scan_fields(s: Seq<u8>, sep: u8) -> (Seq<Seq<u8>>, Seq<u8>)
    decreases s.len(),
{
    if s.len() == 0 {
        (Seq::empty(), Seq::empty())
    } else {
        let (done, cur) = scan_fields(s.drop_last(), sep);
        if s.last() == sep {
            (done.push(cur), Seq::empty())
        } else {
            (done, cur.push(s.last()))
        }
    }
}

/// The fields of `s` separated by `sep`, empty ones included (what splitting
/// at every `sep` gives): one more field than there are separators.
pub open spec fn fields(s: Seq<u8>, sep: u8) -> Seq<Seq<u8>> {
    let (done, cur) = scan_fields(s, sep);
    done.push(cur)
}

/// Splits `s` at every `sep`, keeping empty parts.
pub fn split_fields(s: &[u8], sep: u8) -> (r: Vec<Vec<u8>>)
    ensures
        vecs_view(r@) == fields(s@, sep),
{
    let n = s.len();
    let mut done: Vec<Vec<u8>> = Vec::new();
    let mut cur: Vec<u8> = Vec::new();
    let mut i: usize = 0;
    assert(s@.subrange(0, 0) =~= Seq::<u8>::empty());
    assert(vecs_view(done@) =~= Seq::<Seq<u8>>::empty());
    while i < n
        invariant
            n == s@.len(),
            i <= n,
            (vecs_view(done@), cur@) == scan_fields(s@.subrange(0, i as int), sep),
        decreases n - i,
    {
        let ghost pre = s@.subrange(0, i as int);
        assert(s@.subrange(0, i + 1).drop_last() =~= pre);
        assert(s@.subrange(0, i + 1).last() == s@[i as int]);
        if s[i] == sep {
            let ghost dv = vecs_view(done@);
            let ghost cv = cur@;
            done.push(cur);
            cur = Vec::new();
            assert(vecs_view(done@) =~= dv.push(cv));
        } else {
            cur.push(s[i]);
        }
        i = i + 1;
    }
    assert(s@.subrange(0, n as int) =~= s@);
    let ghost dv = vecs_view(done@);
    let ghost cv = cur@;
    done.push(cur);
    assert(vecs_view(done@) =~= dv.push(cv));
    done
}

/// Every field holds no separator and only bytes of `s`.
pub proof fn lemma_fields(s: Seq<u8>, sep: u8)
    ensures
        forall|i: int|
            0 <= i < fields(s, sep).len() ==> token_of(#[trigger] fields(s, sep)[i], s, sep),
{
    lemma_scan_fields(s, sep);
    let (done, cur) = scan_fields(s, sep);
    assert forall|i: int| 0 <= i < fields(s, sep).len() implies token_of(
        #[trigger] fields(s, sep)[i],
        s,
        sep,
    ) by {
        if i < done.len() {
            assert(fields(s, sep)[i] == done[i]);
        }
    }
}

proof fn lemma_scan_fields(s: Seq<u8>, sep: u8)
    ensures
        forall|i: int|
            0 <= i < scan_fields(s, sep).0.len() ==> token_of(#[trigger] scan_fields(s, sep).0[i], s, sep),
        token_of(scan_fields(s, sep).1, s, sep),
    decreases s.len(),
{
    if s.len() > 0 {
        let p = s.drop_last();
        lemma_scan_fields(p, sep);
        let (done, cur) = scan_fields(p, sep);
        assert forall|t: Seq<u8>| token_of(t, p, sep) implies token_of(t, s, sep) by {
            assert forall|j: int| 0 <= j < t.len() implies #[trigger] t[j] != sep && s.contains(
                t[j],
            ) by {
                let k = choose|k: int| 0 <= k < p.len() && p[k] == t[j];
                assert(s[k] == t[j]);
            }
        }
        assert(s.contains(s.last())) by {
            assert(s[s.len() - 1] == s.last());
        }
        assert(token_of(cur, s, sep));
        assert forall|i: int| 0 <= i < done.len() implies token_of(#[trigger] done[i], s, sep) by {
            assert(token_of(done[i], p, sep));
        }
        if s.last() == sep {
            let d2 = done.push(cur);
            assert forall|i: int| 0 <= i < d2.len() implies token_of(#[trigger] d2[i], s, sep) by {
                if i < done.len() {
                    assert(d2[i] == done[i]);
                }
            }
            assert(token_of(Seq::<u8>::empty(), s, sep));
        } else {
            let c2 = cur.push(s.last());
            assert forall|j: int| 0 <= j < c2.len() implies #[trigger] c2[j] != sep && s.contains(
                c2[j],
            ) by {
                if j < cur.len() {
                    assert(c2[j] == cur[j]);
                }
            }
        }
    }
}

// ---------------------------------------------------------------------------
// Arguments
// ---------------------------------------------------------------------------

/// The arguments of a command line given its parts between double quotes,
/// in the order they stand in the line: parts at even positions are outside
/// quotes and are split at spaces; parts at odd positions are the quoted
/// ones, each one argument unless it is empty.
pub open spec fn argv_from_groups(groups: Seq<Seq<u8>>) -> Seq<Seq<u8>>
    decreases groups.len(),
{
    if groups.len() == 0 {
        Seq::empty()
    } else {
        let prev = argv_from_groups(groups.drop_last());
        if (groups.len() - 1) % 2 == 0 {
            prev + tokens(groups.last(), 32u8)
        } else if groups.last().len() > 0 {
            prev.push(groups.last())
        } else {
            prev
        }
    }
}

/// The arguments of the command line `s`: split at double quotes, then the
/// unquoted parts split at spaces and the non-empty quoted parts taken whole.
pub open spec fn argv_spec(s: Seq<u8>) -> Seq<Seq<u8>> {
    argv_from_groups(fields(s, 34u8))
}

/// Splits a command line into its arguments; the program name comes first.
/// Arguments are separated by spaces or by `""`, and text between double
/// quotes is one argument.
pub fn parse_argv(cmd_line: &[u8]) -> (argv: Vec<Vec<u8>>)
    ensures
        vecs_view(argv@) == argv_spec(cmd_line@),
{
    let groups = split_fields(cmd_line, 34u8);
    let ghost g = vecs_view(groups@);
    let mut argv: Vec<Vec<u8>> = Vec::new();
    let mut i: usize = 0;
    assert(g.subrange(0, 0) =~= Seq::<Seq<u8>>::empty());
    assert(vecs_view(argv@) =~= Seq::<Seq<u8>>::empty());
    while i < groups.len()
        invariant
            g == vecs_view(groups@),
            g == fields(cmd_line@, 34u8),
            i <= groups@.len(),
            vecs_view(argv@) == argv_from_groups(g.subrange(0, i as int)),
        decreases groups@.len() - i,
    {
        let ghost before = vecs_view(argv@);
        assert(g.subrange(0, i + 1).drop_last() =~= g.subrange(0, i as int));
        assert(g.subrange(0, i + 1).last() == groups@[i as int]@);
        if i % 2 == 0 {
            let words = tokenize(groups[i].as_slice(), 32u8);
            let mut j: usize = 0;
            let ghost w = vecs_view(words@);
            while j < words.len()
                invariant
                    w == vecs_view(words@),
                    j <= words@.len(),
                    vecs_view(argv@) == before + w.subrange(0, j as int),
                decreases words@.len() - j,
            {
                let word = copy_range(words[j].as_slice(), 0, words[j].len());
                let ghost av = vecs_view(argv@);
                assert(word@ =~= w[j as int]);
                argv.push(word);
                assert(vecs_view(argv@) =~= av.push(w[j as int]));
                assert(w.subrange(0, j + 1) =~= w.subrange(0, j as int).push(w[j as int]));
                j = j + 1;
            }
            assert(w.subrange(0, w.len() as int) =~= w);
        } else if groups[i].len() > 0 {
            let part = copy_range(groups[i].as_slice(), 0, groups[i].len());
            assert(part@ =~= g[i as int]);
            argv.push(part);
            assert(vecs_view(argv@) =~= before.push(g[i as int]));
        }
        i = i + 1;
    }
    assert(g.subrange(0, g.len() as int) =~= g);
    argv
}

/// No argument is empty or holds a double quote.
pub proof fn law_arguments_nonempty_unquoted(s: Seq<u8>)
    ensures
        forall|i: int| 0 <= i < argv_spec(s).len() ==> (#[trigger] argv_spec(s)[i]).len() > 0,
        forall|i: int| 0 <= i < argv_spec(s).len() ==> !(#[trigger] argv_spec(s)[i]).contains(34u8),
{
    let g = fields(s, 34u8);
    lemma_fields(s, 34u8);
    assert forall|i: int| 0 <= i < g.len() implies !(#[trigger] g[i]).contains(34u8) by {
        assert(token_of(g[i], s, 34u8));
        if g[i].contains(34u8) {
            let j = choose|j: int| 0 <= j < g[i].len() && g[i][j] == 34u8;
            assert(g[i][j] != 34u8);
        }
    }
    lemma_argv_from_groups(g);
}

/// A quoted part of a command line is one argument: in `"q" rest`, where
/// `q` is non-empty and holds no double quote and `rest` holds none either,
/// the first argument is `q`, and the rest are `rest` split at spaces.
pub proof fn law_quoted_part_is_one_argument(q: Seq<u8>, rest: Seq<u8>)
    requires
        q.len() > 0,
        !q.contains(34u8),
        !rest.contains(34u8),
    ensures
        argv_spec(seq![34u8] + q + seq![34u8] + rest) == seq![q] + tokens(rest, 32u8),
{
    let line = seq![34u8] + q + seq![34u8] + rest;
    lemma_fields_of_quoted(q, rest);
    let g = fields(line, 34u8);
    assert(g == seq![Seq::<u8>::empty(), q, rest]);
    assert(g.drop_last() =~= seq![Seq::<u8>::empty(), q]);
    assert(g.drop_last().drop_last() =~= seq![Seq::<u8>::empty()]);
    let ge = seq![Seq::<u8>::empty()];
    let none = Seq::<Seq<u8>>::empty();
    assert(ge.drop_last() =~= none);
    assert(ge.last() == Seq::<u8>::empty());
    assert(argv_from_groups(none) == none);
    assert(scan_tokens(Seq::<u8>::empty(), 32u8) == (none, Seq::<u8>::empty()));
    assert(tokens(Seq::<u8>::empty(), 32u8) == none);
    assert(none + none =~= none);
    assert(argv_from_groups(ge) =~= none);
    assert(argv_from_groups(seq![Seq::<u8>::empty(), q]) =~= seq![q]);
}

/// Scanning bytes that hold no separator only extends the current field.
proof fn lemma_scan_fields_plain(p: Seq<u8>, x: Seq<u8>, sep: u8)
    requires
        !x.contains(sep),
    ensures
        scan_fields(p + x, sep) == (scan_fields(p, sep).0, scan_fields(p, sep).1 + x),
    decreases x.len(),
{
    if x.len() == 0 {
        assert(p + x =~= p);
        assert(scan_fields(p, sep).1 + x =~= scan_fields(p, sep).1);
    } else {
        let y = x.drop_last();
        assert(!y.contains(sep)) by {
            if y.contains(sep) {
                let k = choose|k: int| 0 <= k < y.len() && y[k] == sep;
                assert(x[k] == sep);
            }
        }
        lemma_scan_fields_plain(p, y, sep);
        assert((p + x).drop_last() =~= p + y);
        assert((p + x).last() == x.last());
        assert(x.last() != sep) by {
            assert(x[x.len() - 1] == x.last());
        }
        assert(scan_fields(p, sep).1 + y + seq![x.last()] =~= scan_fields(p, sep).1 + x);
        assert((scan_fields(p, sep).1 + y).push(x.last()) =~= scan_fields(p, sep).1 + x);
    }
}

proof fn lemma_fields_of_quoted(q: Seq<u8>, rest: Seq<u8>)
    requires
        !q.contains(34u8),
        !rest.contains(34u8),
    ensures
        fields(seq![34u8] + q + seq![34u8] + rest, 34u8) == seq![Seq::<u8>::empty(), q, rest],
{
    let e = Seq::<u8>::empty();
    let s1 = seq![34u8];
    assert(s1.drop_last() =~= e);
    assert(scan_fields(e, 34u8) == (Seq::<Seq<u8>>::empty(), e));
    assert(scan_fields(s1, 34u8) == (seq![e], e));
    lemma_scan_fields_plain(s1, q, 34u8);
    assert(e + q =~= q);
    let s2 = s1 + q;
    let s3 = s2 + seq![34u8];
    assert(s3.drop_last() =~= s2);
    assert(scan_fields(s3, 34u8) == (seq![e, q], e));
    lemma_scan_fields_plain(s3, rest, 34u8);
    assert(e + rest =~= rest);
    assert(seq![34u8] + q + seq![34u8] + rest =~= s3 + rest);
    assert(seq![e, q].push(rest) =~= seq![e, q, rest]);
}

proof fn lemma_argv_from_groups(g: Seq<Seq<u8>>)
    requires
        forall|i: int| 0 <= i < g.len() ==> !(#[trigger] g[i]).contains(34u8),
    ensures
        forall|i: int| 0 <= i < argv_from_groups(g).len() ==> (#[trigger] argv_from_groups(g)[i]).len() > 0,
        forall|i: int| 0 <= i < argv_from_groups(g).len() ==> !(#[trigger] argv_from_groups(g)[i]).contains(34u8),
    decreases g.len(),
{
    if g.len() > 0 {
        let p = g.drop_last();
        assert forall|i: int| 0 <= i < p.len() implies !(#[trigger] p[i]).contains(34u8) by {
            assert(p[i] == g[i]);
        }
        lemma_argv_from_groups(p);
        let prev = argv_from_groups(p);
        let last = g.last();
        assert(last == g[g.len() - 1]);
        if (g.len() - 1) % 2 == 0 {
            let t = tokens(last, 32u8);
            lemma_tokens(last, 32u8);
            let a = prev + t;
            assert forall|i: int| 0 <= i < a.len() implies !(#[trigger] a[i]).contains(34u8) by {
                if i >= prev.len() {
                    let x = t[i - prev.len()];
                    assert(a[i] == x);
                    assert(token_of(x, last, 32u8));
                    if x.contains(34u8) {
                        let j = choose|j: int| 0 <= j < x.len() && x[j] == 34u8;
                        assert(last.contains(x[j]));
                        assert(last.contains(34u8));
                    }
                } else {
                    assert(a[i] == prev[i]);
                }
            }
            assert forall|i: int| 0 <= i < a.len() implies (#[trigger] a[i]).len() > 0 by {
                if i >= prev.len() {
                    assert(a[i] == t[i - prev.len()]);
                } else {
                    assert(a[i] == prev[i]);
                }
            }
        } else if last.len() > 0 {
            let a = prev.push(last);
            assert forall|i: int| 0 <= i < a.len() implies !(#[trigger] a[i]).contains(34u8) by {
                if i < prev.len() {
                    assert(a[i] == prev[i]);
                }
            }
            assert forall|i: int| 0 <= i < a.len() implies (#[trigger] a[i]).len() > 0 by {
                if i < prev.len() {
                    assert(a[i] == prev[i]);
                }
            }
        }
    }
}

// ---------------------------------------------------------------------------
// Pipelines
// ---------------------------------------------------------------------------

/// A character with Unicode's White_Space property, the white space that
/// `str::trim` removes.
pub open spec fn is_white_space(c: char) -> bool {
    let u = c as u32;
    ||| 0x9 <= u <= 0xd
    ||| u == 0x20
    ||| u == 0x85
    ||| u == 0xa0
    ||| u == 0x1680
    ||| 0x2000 <= u <= 0x200a
    ||| u == 0x2028
    ||| u == 0x2029
    ||| u == 0x202f
    ||| u == 0x205f
    ||| u == 0x3000
}

/// Every character of `s` is white space.
pub open spec fn all_white_space(s: Seq<char>) -> bool {
    forall|i: int| 0 <= i < s.len() ==> is_white_space(#[trigger] s[i])
}

/// `s` without its leading white space.
pub open spec fn trim_start_chars(s: Seq<char>) -> Seq<char>
    decreases s.len(),
{
    if s.len() > 0 && is_white_space(s[0]) {
        trim_start_chars(s.drop_first())
    } else {
        s
    }
}

/// `s` without its trailing white space.
pub open spec fn trim_end_chars(s: Seq<char>) -> Seq<char>
    decreases s.len(),
{
    if s.len() > 0 && is_white_space(s.last()) {
        trim_end_chars(s.drop_last())
    } else {
        s
    }
}

/// `s` without its leading and trailing white space.
pub open spec fn trim_chars(s: Seq<char>) -> Seq<char> {
    trim_end_chars(trim_start_chars(s))
}

/// Calls `str::trim`. Claimed, as its documentation says: the result is the
/// text without its leading and trailing white space (characters with
/// Unicode's White_Space property).
#[verifier::external_body]
fn trim_str(s: &str) -> (r: &str)
    ensures
        r@ == trim_chars(s@),
{
    s.trim()
}

/// The stages of the pipeline `s`: the trimmed text split at `|`, without
/// empty stages.
pub open spec fn pipeline_spec(s: Seq<char>) -> Seq<Seq<u8>> {
    tokens(vstd::utf8::encode_utf8(trim_chars(s)), 124u8)
}

/// Splits a command line into the stages of its pipeline (the commands
/// between `|`), after trimming white space from both ends; empty stages
/// are dropped.
pub fn split_pipeline(cmd_line: &str) -> (stages: Vec<Vec<u8>>)
    ensures
        vecs_view(stages@) == pipeline_spec(cmd_line@),
{
    let trimmed = trim_str(cmd_line);
    tokenize(trimmed.as_bytes(), 124u8)
}

/// Every stage of a pipeline is non-empty and holds no `|`.
pub proof fn law_pipeline_stages_nonempty(s: Seq<char>)
    ensures
        forall|i: int|
            0 <= i < pipeline_spec(s).len() ==> (#[trigger] pipeline_spec(s)[i]).len() > 0
                && !pipeline_spec(s)[i].contains(124u8),
{
    let b = vstd::utf8::encode_utf8(trim_chars(s));
    lemma_tokens(b, 124u8);
    assert forall|i: int| 0 <= i < pipeline_spec(s).len() implies (#[trigger] pipeline_spec(
        s,
    )[i]).len() > 0 && !pipeline_spec(s)[i].contains(124u8) by {
        let t = pipeline_spec(s)[i];
        assert(token_of(t, b, 124u8));
        if t.contains(124u8) {
            let j = choose|j: int| 0 <= j < t.len() && t[j] == 124u8;
            assert(t[j] != 124u8);
        }
    }
}

proof fn lemma_trim_start_white_prefix(w: Seq<char>, x: Seq<char>)
    requires
        all_white_space(w),
    ensures
        trim_start_chars(w + x) == trim_start_chars(x),
    decreases w.len(),
{
    if w.len() == 0 {
        assert(w + x =~= x);
    } else {
        assert((w + x)[0] == w[0]);
        assert((w + x).drop_first() =~= w.drop_first() + x);
        assert(all_white_space(w.drop_first())) by {
            assert forall|i: int| 0 <= i < w.drop_first().len() implies is_white_space(
                #[trigger] w.drop_first()[i],
            ) by {
                assert(w.drop_first()[i] == w[i + 1]);
            }
        }
        lemma_trim_start_white_prefix(w.drop_first(), x);
    }
}

proof fn lemma_trim_end_white_suffix(x: Seq<char>, w: Seq<char>)
    requires
        all_white_space(w),
    ensures
        trim_end_chars(x + w) == trim_end_chars(x),
    decreases w.len(),
{
    if w.len() == 0 {
        assert(x + w =~= x);
    } else {
        assert((x + w).last() == w.last());
        assert(w.last() == w[w.len() - 1]);
        assert((x + w).drop_last() =~= x + w.drop_last());
        assert(all_white_space(w.drop_last())) by {
            assert forall|i: int| 0 <= i < w.drop_last().len() implies is_white_space(
                #[trigger] w.drop_last()[i],
            ) by {
                assert(w.drop_last()[i] == w[i]);
            }
        }
        lemma_trim_end_white_suffix(x, w.drop_last());
    }
}

proof fn lemma_trim_white_suffix(x: Seq<char>, w: Seq<char>)
    requires
        all_white_space(w),
    ensures
        trim_chars(x + w) == trim_chars(x),
    decreases x.len(),
{
    let e = Seq::<char>::empty();
    if x.len() == 0 {
        assert(x + w =~= w + e);
        lemma_trim_start_white_prefix(w, e);
        assert(x =~= e);
    } else if is_white_space(x[0]) {
        assert((x + w)[0] == x[0]);
        assert((x + w).drop_first() =~= x.drop_first() + w);
        lemma_trim_white_suffix(x.drop_first(), w);
    } else {
        assert((x + w)[0] == x[0]);
        lemma_trim_end_white_suffix(x, w);
    }
}

/// White space around a command line does not change its stages.
pub proof fn law_outer_white_space_ignored(s: Seq<char>, before: Seq<char>, after: Seq<char>)
    requires
        all_white_space(before),
        all_white_space(after),
    ensures
        pipeline_spec(before + s + after) == pipeline_spec(s),
{
    assert(before + s + after =~= before + (s + after));
    lemma_trim_start_white_prefix(before, s + after);
    lemma_trim_white_suffix(s, after);
}

proof fn lemma_trim_start_before_text(a: Seq<char>, y: Seq<char>)
    requires
        y.len() > 0,
        !is_white_space(y[0]),
    ensures
        trim_start_chars(a + y) == trim_start_chars(a) + y,
    decreases a.len(),
{
    if a.len() == 0 {
        assert(a + y =~= y);
        assert(trim_start_chars(a) + y =~= y);
    } else if is_white_space(a[0]) {
        assert((a + y)[0] == a[0]);
        assert((a + y).drop_first() =~= a.drop_first() + y);
        lemma_trim_start_before_text(a.drop_first(), y);
    } else {
        assert((a + y)[0] == a[0]);
    }
}

proof fn lemma_trim_end_after_text(x: Seq<char>, b: Seq<char>)
    requires
        x.len() > 0,
        !is_white_space(x.last()),
    ensures
        trim_end_chars(x + b) == x + trim_end_chars(b),
    decreases b.len(),
{
    if b.len() == 0 {
        assert(x + b =~= x);
        assert(x + trim_end_chars(b) =~= x);
    } else if is_white_space(b.last()) {
        assert((x + b).last() == b.last());
        assert((x + b).drop_last() =~= x + b.drop_last());
        lemma_trim_end_after_text(x, b.drop_last());
    } else {
        assert((x + b).last() == b.last());
    }
}

proof fn lemma_encode_concat(a: Seq<char>, b: Seq<char>)
    ensures
        vstd::utf8::encode_utf8(a + b) == vstd::utf8::encode_utf8(a) + vstd::utf8::encode_utf8(b),
    decreases a.len(),
{
    if a.len() == 0 {
        assert(a + b =~= b);
        assert(vstd::utf8::encode_utf8(a) + vstd::utf8::encode_utf8(b) =~= vstd::utf8::encode_utf8(b));
    } else {
        assert((a + b)[0] == a[0]);
        assert((a + b).drop_first() =~= a.drop_first() + b);
        lemma_encode_concat(a.drop_first(), b);
        assert(vstd::utf8::encode_scalar(a[0] as u32) + (vstd::utf8::encode_utf8(a.drop_first())
            + vstd::utf8::encode_utf8(b)) =~= (vstd::utf8::encode_scalar(a[0] as u32)
            + vstd::utf8::encode_utf8(a.drop_first())) + vstd::utf8::encode_utf8(b));
    }
}

proof fn lemma_encode_bars(n: nat)
    requires
        n == 1 || n == 2,
    ensures
        vstd::utf8::encode_utf8(Seq::new(n, |i: int| '|')) == Seq::new(n, |i: int| 124u8),
{
    assert((124u32 & 0x7fu32) as u8 == 124u8) by (bit_vector);
    assert(('|' as u32) == 124u32);
    let one = Seq::new(1, |i: int| '|');
    assert(one.drop_first() =~= Seq::<char>::empty());
    assert(one[0] == '|');
    assert(vstd::utf8::has_width_1_encoding(124u32));
    assert(vstd::utf8::leading_byte_width_1(124u32) == 124u8);
    assert(vstd::utf8::encode_scalar(124u32) =~= seq![124u8]);
    assert(vstd::utf8::encode_utf8(Seq::<char>::empty()) =~= Seq::<u8>::empty());
    assert(vstd::utf8::encode_utf8(one) == vstd::utf8::encode_scalar(one[0] as u32)
        + vstd::utf8::encode_utf8(one.drop_first()));
    assert(vstd::utf8::encode_utf8(one) =~= Seq::new(1, |i: int| 124u8));
    if n == 2 {
        let two = Seq::new(2, |i: int| '|');
        assert(two.drop_first() =~= one);
        assert(two[0] == '|');
        assert(vstd::utf8::encode_utf8(two) == vstd::utf8::encode_scalar(two[0] as u32)
            + vstd::utf8::encode_utf8(two.drop_first()));
        assert(vstd::utf8::encode_utf8(two) =~= Seq::new(2, |i: int| 124u8));
    }
}

proof fn lemma_scan_tokens_append(x: Seq<u8>, y: Seq<u8>, q: Seq<u8>, sep: u8)
    requires
        scan_tokens(x, sep) == scan_tokens(y, sep),
    ensures
        scan_tokens(x + q, sep) == scan_tokens(y + q, sep),
    decreases q.len(),
{
    if q.len() == 0 {
        assert(x + q =~= x);
        assert(y + q =~= y);
    } else {
        lemma_scan_tokens_append(x, y, q.drop_last(), sep);
        assert((x + q).drop_last() =~= x + q.drop_last());
        assert((y + q).drop_last() =~= y + q.drop_last());
        assert((x + q).last() == q.last());
        assert((y + q).last() == q.last());
    }
}

/// Empty stages are dropped: `a||b` has the same stages as `a|b`.
pub proof fn law_empty_stages_dropped(a: Seq<char>, b: Seq<char>)
    ensures
        pipeline_spec(a + seq!['|', '|'] + b) == pipeline_spec(a + seq!['|'] + b),
{
    let one = seq!['|'];
    let two = seq!['|', '|'];
    assert(one =~= Seq::new(1, |i: int| '|'));
    assert(two =~= Seq::new(2, |i: int| '|'));
    lemma_encode_bars(1);
    lemma_encode_bars(2);
    assert(!is_white_space('|')) by {
        assert(('|' as u32) == 124u32);
    }
    let ta = trim_start_chars(a);
    let tb = trim_end_chars(b);
    // trimming stops at the bars
    assert forall|m: Seq<char>| m == one || m == two implies trim_chars(a + m + b) == ta + m + tb by {
        assert(a + m + b =~= a + (m + b));
        assert((m + b)[0] == m[0]);
        lemma_trim_start_before_text(a, m + b);
        assert(ta + (m + b) =~= (ta + m) + b);
        assert((ta + m).last() == m.last());
        lemma_trim_end_after_text(ta + m, b);
    }
    let ea = vstd::utf8::encode_utf8(ta);
    let eb = vstd::utf8::encode_utf8(tb);
    lemma_encode_concat(ta + one, tb);
    lemma_encode_concat(ta, one);
    lemma_encode_concat(ta + two, tb);
    lemma_encode_concat(ta, two);
    let p1 = ea + seq![124u8];
    let p2 = ea + seq![124u8, 124u8];
    assert(vstd::utf8::encode_utf8(one) =~= seq![124u8]);
    assert(vstd::utf8::encode_utf8(two) =~= seq![124u8, 124u8]);
    assert(vstd::utf8::encode_utf8(trim_chars(a + one + b)) == p1 + eb);
    assert(vstd::utf8::encode_utf8(trim_chars(a + two + b)) == p2 + eb);
    // a second bar right after a bar changes nothing
    assert(p1.drop_last() =~= ea);
    assert(p1.last() == 124u8);
    assert(p2.drop_last() =~= p1);
    assert(p2.last() == 124u8);
    assert(scan_tokens(p2, 124u8) == scan_tokens(p1, 124u8));
    lemma_scan_tokens_append(p2, p1, eb, 124u8);
}

// ---------------------------------------------------------------------------
// A single command
// ---------------------------------------------------------------------------

/// Which standard stream a redirection replaces.
#[derive(PartialEq, Eq, Structural, Clone, Copy, Debug)]
pub enum RedirectKind {
    /// `> file`: the command's output goes to the file.
    Output,
    /// `< file`: the command reads the file.
    Input,
}

/// A redirection of a command: `> file` or `< file`.
#[derive(PartialEq, Eq, Debug)]
pub struct Redirect {
    pub kind: RedirectKind,
    pub file: Vec<u8>,
}

/// The mathematical value of a redirection.
pub struct RedirectView {
    pub kind: RedirectKind,
    pub file: Seq<u8>,
}

impl View for Redirect {
    type V = RedirectView;

    open spec fn view(&self) -> RedirectView {
        RedirectView { kind: self.kind, file: self.file@ }
    }
}

/// What a command does once its redirections are in place.
#[derive(PartialEq, Eq, Debug)]
pub enum CmdAction {
    /// Nothing: the command line holds no program.
    Nothing,
    /// The command line is malformed (a redirection without its file): the
    /// command fails after the listed redirections.
    Abort,
    /// `cd`, with the directory if one is given.
    ChangeDir(Option<Vec<u8>>),
    /// Run `program` with `args`.
    Run { program: Vec<u8>, args: Vec<Vec<u8>> },
}

/// The mathematical value of a `CmdAction`.
pub enum ActionView {
    Nothing,
    Abort,
    ChangeDir(Option<Seq<u8>>),
    Run { program: Seq<u8>, args: Seq<Seq<u8>> },
}

impl View for CmdAction {
    type V = ActionView;

    open spec fn view(&self) -> ActionView {
        match self {
            CmdAction::Nothing => ActionView::Nothing,
            CmdAction::Abort => ActionView::Abort,
            CmdAction::ChangeDir(d) => ActionView::ChangeDir(
                match d {
                    Some(d) => Some(d@),
                    None => None,
                },
            ),
            CmdAction::Run { program, args } => ActionView::Run {
                program: program@,
                args: vecs_view(args@),
            },
        }
    }
}

/// A single command of a pipeline: its redirections, in the order in which
/// they are opened, and what it does then.
#[derive(PartialEq, Eq, Debug)]
pub struct SingleCmd {
    pub redirects: Vec<Redirect>,
    pub action: CmdAction,
}

/// The values of a list of redirections.
pub open spec fn redirects_view(v: Seq<Redirect>) -> Seq<RedirectView> {
    v.map_values(|r: Redirect| r@)
}

/// `>`
pub open spec fn output_sign() -> Seq<u8> {
    seq![62u8]
}

/// `<`
pub open spec fn input_sign() -> Seq<u8> {
    seq![60u8]
}

/// `cd`
pub open spec fn cd_word() -> Seq<u8> {
    seq![99u8, 100u8]
}

/// Scanning the arguments from index `i` on: a `>` or `<` argument and the
/// argument after it are taken out as a redirection, and the scan goes on
/// one index further (so the argument that moved into that index is passed
/// over). The result: the arguments left, the redirections found after
/// `acc`, and whether every redirection had its file.
pub open spec fn scan_redirects(argv: Seq<Seq<u8>>, i: int, acc: Seq<RedirectView>) -> (
    Seq<Seq<u8>>,
    Seq<RedirectView>,
    bool,
)
    decreases argv.len() + 1 - i,
{
    if i < 0 || i >= argv.len() {
        (argv, acc, true)
    } else if argv[i] == output_sign() || argv[i] == input_sign() {
        let kind = if argv[i] == output_sign() {
            RedirectKind::Output
        } else {
            RedirectKind::Input
        };
        let a1 = argv.remove(i);
        if i >= a1.len() {
            (a1, acc, false)
        } else {
            scan_redirects(a1.remove(i), i + 1, acc.push(RedirectView { kind, file: a1[i] }))
        }
    } else {
        scan_redirects(argv, i + 1, acc)
    }
}

/// The redirections and the action of the command line `s`.
pub open spec fn single_cmd_spec(s: Seq<u8>) -> (Seq<RedirectView>, ActionView) {
    let argv = argv_spec(s);
    if argv.len() == 0 {
        (Seq::empty(), ActionView::Nothing)
    } else {
        let (rest, redirects, ok) = scan_redirects(argv, 0, Seq::empty());
        if !ok {
            (redirects, ActionView::Abort)
        } else if rest.len() == 0 {
            (redirects, ActionView::Nothing)
        } else if rest[0] == cd_word() {
            (redirects, ActionView::ChangeDir(if rest.len() > 1 { Some(rest[1]) } else { None }))
        } else {
            (redirects, ActionView::Run { program: rest[0], args: rest.drop_first() })
        }
    }
}

fn is_word(arg: &Vec<u8>, word: &[u8]) -> (r: bool)
    ensures
        r == (arg@ == word@),
{
    if arg.len() != word.len() {
        return false;
    }
    let r = crate::text::matches_at(arg.as_slice(), word, 0);
    assert(arg@.subrange(0, word@.len() as int) =~= arg@);
    r
}

/// Reads a single command (one stage of a pipeline): its arguments, the
/// `>` and `<` redirections among them, and whether it is `cd`, a program
/// to run, or nothing.
pub fn parse_single_cmd(cmd_line: &[u8]) -> (cmd: SingleCmd)
    ensures
        redirects_view(cmd.redirects@) == single_cmd_spec(cmd_line@).0,
        cmd.action@ == single_cmd_spec(cmd_line@).1,
{
    let mut argv = parse_argv(cmd_line);
    let mut redirects: Vec<Redirect> = Vec::new();
    assert(redirects_view(redirects@) =~= Seq::<RedirectView>::empty());
    if argv.len() == 0 {
        return SingleCmd { redirects, action: CmdAction::Nothing };
    }
    let out_sign: Vec<u8> = vec![62u8];
    let in_sign: Vec<u8> = vec![60u8];
    let cd: Vec<u8> = vec![99u8, 100u8];
    let ghost full = scan_redirects(vecs_view(argv@), 0, Seq::empty());
    let mut i: usize = 0;
    while i < argv.len()
        invariant
            out_sign@ == output_sign(),
            in_sign@ == input_sign(),
            full == scan_redirects(argv_spec(cmd_line@), 0, Seq::empty()),
            argv_spec(cmd_line@).len() > 0,
            full == scan_redirects(vecs_view(argv@), i as int, redirects_view(redirects@)),
        decreases argv@.len() + 1 - i,
    {
        let ghost av = vecs_view(argv@);
        let ghost rv = redirects_view(redirects@);
        let is_out = is_word(&argv[i], out_sign.as_slice());
        let is_in = is_word(&argv[i], in_sign.as_slice());
        assert(av[i as int] == argv@[i as int]@);
        if is_out || is_in {
            argv.remove(i);
            assert(vecs_view(argv@) =~= av.remove(i as int));
            if i >= argv.len() {
                return SingleCmd { redirects, action: CmdAction::Abort };
            }
            let ghost a1 = vecs_view(argv@);
            let file = argv.remove(i);
            assert(vecs_view(argv@) =~= a1.remove(i as int));
            let kind = if is_out { RedirectKind::Output } else { RedirectKind::Input };
            let r = Redirect { kind, file };
            redirects.push(r);
            assert(redirects_view(redirects@) =~= rv.push(r@));
        }
        i = i + 1;
    }
    let ghost rest = vecs_view(argv@);
    if argv.len() == 0 {
        return SingleCmd { redirects, action: CmdAction::Nothing };
    }
    let program = argv.remove(0);
    assert(vecs_view(argv@) =~= rest.drop_first());
    if is_word(&program, cd.as_slice()) {
        let dir = if argv.len() > 0 {
            Some(argv.remove(0))
        } else {
            None
        };
        return SingleCmd { redirects, action: CmdAction::ChangeDir(dir) };
    }
    SingleCmd { redirects, action: CmdAction::Run { program, args: argv } }
}

/// Every redirection takes two arguments away: when all redirections have
/// their files, the arguments left and two per redirection make up all the
/// arguments.
pub proof fn law_redirects_take_two_arguments(argv: Seq<Seq<u8>>)
    ensures
        scan_redirects(argv, 0, Seq::empty()).2 ==> scan_redirects(argv, 0, Seq::empty()).0.len()
            + 2 * scan_redirects(argv, 0, Seq::empty()).1.len() == argv.len(),
{
    lemma_scan_redirects_count(argv, 0, Seq::empty());
}

proof fn lemma_scan_redirects_count(argv: Seq<Seq<u8>>, i: int, acc: Seq<RedirectView>)
    ensures
        scan_redirects(argv, i, acc).2 ==> scan_redirects(argv, i, acc).0.len() + 2 * scan_redirects(
            argv,
            i,
            acc,
        ).1.len() == argv.len() + 2 * acc.len(),
    decreases argv.len() + 1 - i,
{
    if i < 0 || i >= argv.len() {
    } else if argv[i] == output_sign() || argv[i] == input_sign() {
        let kind = if argv[i] == output_sign() {
            RedirectKind::Output
        } else {
            RedirectKind::Input
        };
        let a1 = argv.remove(i);
        if i < a1.len() {
            lemma_scan_redirects_count(a1.remove(i), i + 1, acc.push(RedirectView { kind, file: a1[i] }));
        }
    } else {
        lemma_scan_redirects_count(argv, i + 1, acc);
    }
}

} // verus!
