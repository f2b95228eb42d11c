//! The `post-checkout` hook: merging the managed block into whatever hook
//! text is already there, so that installing twice adds nothing.
use vstd::prelude::*;

use crate::text::{
    append_chars, find, find_chars, from_chars, is_ws, lemma_find_from, lemma_find_is_first,
    lemma_strip_end_at, lemma_strip_end_cut, lemma_strip_ends, lemma_strip_start_at, lemma_strip_start_cut,
    occurs_at, occurs_at_exec, slice_chars, starts_with, strip, strip_bounds, strip_end,
    strip_end_index, strip_start, strip_start_index, to_chars, Strip,
};

verus! {

/// The hook file's name inside `.git/hooks`.
pub const HOOK_FILE_NAME: &'static str = "post-checkout";

/// The line that opens the managed block.
pub const MANAGED_START: &'static str = "# >>> garc managed start >>>";

/// The line that closes the managed block.
pub const MANAGED_END: &'static str = "# <<< garc managed end <<<";

/// The managed block: it tells CAMP about the branch after every checkout.
pub const HOOK_SNIPPET: &'static str = "# >>> garc managed start >>>\nif command -v camp >/dev/null 2>&1; then\n  camp update --branch \"$(git rev-parse --abbrev-ref HEAD)\" >/dev/null 2>&1 || true\nfi\n# <<< garc managed end <<<\n";

pub open spec fn start_marker() -> Seq<char> {
    "# >>> garc managed start >>>"@
}

pub open spec fn end_marker() -> Seq<char> {
    "# <<< garc managed end <<<"@
}

pub open spec fn hook_snippet() -> Seq<char> {
    "# >>> garc managed start >>>\nif command -v camp >/dev/null 2>&1; then\n  camp update --branch \"$(git rev-parse --abbrev-ref HEAD)\" >/dev/null 2>&1 || true\nfi\n# <<< garc managed end <<<\n"@
}

/// `#!/bin/sh` and a newline.
pub open spec fn shebang_line() -> Seq<char> {
    seq!['#', '!', '/', 'b', 'i', 'n', '/', 's', 'h', '\n']
}

pub open spec fn nl() -> Seq<char> {
    seq!['\n']
}

pub open spec fn nl2() -> Seq<char> {
    seq!['\n', '\n']
}

/// The hook text with `replacement` (trailing white space removed) appended
/// after the existing text, or alone when there is no existing text.
pub open spec fn appended_block(existing: Seq<char>, r: Seq<char>) -> Seq<char> {
    if strip(existing, Strip::Whitespace).len() == 0 {
        r + nl()
    } else {
        strip_end(existing, Strip::Whitespace) + nl2() + r + nl()
    }
}

/// `existing` with the block from the first `start` marker to the first
/// `end` marker replaced by `replacement` (trailing white space removed),
/// separated from the text around it, white space trimmed, by one blank
/// line, and the text ending in one newline; when the markers are
/// missing or out of order, the block is appended instead.
pub open spec fn replaced_block(
    existing: Seq<char>,
    start: Seq<char>,
    end: Seq<char>,
    replacement: Seq<char>,
) -> Seq<char> {
    let r = strip_end(replacement, Strip::Whitespace);
    match (find(existing, start), find(existing, end)) {
        (Some(s), Some(e)) => {
            if e >= s {
                let before = strip_end(existing.subrange(0, s), Strip::Whitespace);
                let after = strip(
                    existing.subrange(e + end.len(), existing.len() as int),
                    Strip::Whitespace,
                );
                if before.len() == 0 && after.len() == 0 {
                    r + nl()
                } else if before.len() == 0 {
                    r + nl2() + after + nl()
                } else if after.len() == 0 {
                    before + nl2() + r + nl()
                } else {
                    before + nl2() + r + nl2() + after + nl()
                }
            } else {
                appended_block(existing, r)
            }
        },
        _ => appended_block(existing, r),
    }
}

/// The existing hook text made to start with a shebang line: empty text
/// becomes `#!/bin/sh`, text without `#!` gets `#!/bin/sh` and a blank line
/// in front of it (leading white space dropped).
pub open spec fn normalized_hook(existing: Seq<char>) -> Seq<char> {
    if strip(existing, Strip::Whitespace).len() == 0 {
        shebang_line()
    } else if starts_with(existing, seq!['#', '!']) {
        existing
    } else {
        shebang_line() + nl() + strip_start(existing, Strip::Whitespace)
    }
}

/// The hook text after installing the managed block into `existing`.
pub open spec fn merged_hook(existing: Seq<char>) -> Seq<char> {
    replaced_block(normalized_hook(existing), start_marker(), end_marker(), hook_snippet())
}

fn push_newlines(out: &mut Vec<char>, n: usize)
    requires
        n == 1 || n == 2,
    ensures
        final(out)@ == old(out)@ + (if n == 1 {
            nl()
        } else {
            nl2()
        }),
{
    out.push('\n');
    if n == 2 {
        out.push('\n');
    }
    assert(final(out)@ =~= old(out)@ + (if n == 1 {
        nl()
    } else {
        nl2()
    }));
}

fn appended_block_exec(e: &Vec<char>, r: &Vec<char>) -> (res: Vec<char>)
    ensures
        res@ == appended_block(e@, r@),
{
    let (lo, hi) = strip_bounds(e, &Strip::Whitespace);
    let mut out: Vec<char> = Vec::new();
    if lo == hi {
        append_chars(&mut out, r);
        push_newlines(&mut out, 1);
    } else {
        let e_hi = strip_end_index(e, 0, e.len(), &Strip::Whitespace);
        assert(e@.subrange(0, e@.len() as int) =~= e@);
        let kept = slice_chars(e, 0, e_hi);
        append_chars(&mut out, &kept);
        push_newlines(&mut out, 2);
        append_chars(&mut out, r);
        push_newlines(&mut out, 1);
    }
    assert(out@ =~= appended_block(e@, r@));
    out
}

/// Replaces the block between the first `start` marker and the first `end`
/// marker of `existing` with `replacement`, or appends `replacement` when the
/// markers are missing or out of order.
pub fn replace_marked_block(existing: &str, start: &str, end: &str, replacement: &str) -> (res:
    String)
    ensures
        res@ == replaced_block(existing@, start@, end@, replacement@),
{
    let e = to_chars(existing);
    let st = to_chars(start);
    let en = to_chars(end);
    let rep = to_chars(replacement);
    let r_hi = strip_end_index(&rep, 0, rep.len(), &Strip::Whitespace);
    assert(rep@.subrange(0, rep@.len() as int) =~= rep@);
    let r = slice_chars(&rep, 0, r_hi);
    let found_start = find_chars(&e, &st);
    let found_end = find_chars(&e, &en);
    let mut out: Vec<char> = Vec::new();
    match (found_start, found_end) {
        (Some(start_idx), Some(end_idx)) if end_idx >= start_idx => {
            proof {
                crate::text::lemma_find_from(e@, en@, 0);
            }
            let e_len = e.len();
            assert(end_idx + en@.len() <= e_len);
            let b_hi = strip_end_index(&e, 0, start_idx, &Strip::Whitespace);
            let before = slice_chars(&e, 0, b_hi);
            let a_lo = strip_start_index(&e, end_idx + en.len(), &Strip::Whitespace);
            let a_hi = strip_end_index(&e, a_lo, e.len(), &Strip::Whitespace);
            let after = slice_chars(&e, a_lo, a_hi);
            if before.len() == 0 && after.len() == 0 {
                append_chars(&mut out, &r);
                push_newlines(&mut out, 1);
            } else if before.len() == 0 {
                append_chars(&mut out, &r);
                push_newlines(&mut out, 2);
                append_chars(&mut out, &after);
                push_newlines(&mut out, 1);
            } else if after.len() == 0 {
                append_chars(&mut out, &before);
                push_newlines(&mut out, 2);
                append_chars(&mut out, &r);
                push_newlines(&mut out, 1);
            } else {
                append_chars(&mut out, &before);
                push_newlines(&mut out, 2);
                append_chars(&mut out, &r);
                push_newlines(&mut out, 2);
                append_chars(&mut out, &after);
                push_newlines(&mut out, 1);
            }
            assert(out@ =~= replaced_block(existing@, start@, end@, replacement@));
        },
        _ => {
            out = appended_block_exec(&e, &r);
        },
    }
    from_chars(&out)
}

/// The hook text after installing the managed block into `existing`: the
/// text is given a shebang line if it lacks one, then the managed block
/// replaces an earlier copy of itself or is appended.
pub fn merge_hook_contents(existing: &str) -> (res: String)
    ensures
        res@ == merged_hook(existing@),
{
    let e = to_chars(existing);
    let (lo, hi) = strip_bounds(&e, &Strip::Whitespace);
    let shebang_pair = to_chars("#!");
    proof {
        reveal_strlit("#!");
    }
    assert(shebang_pair@ =~= seq!['#', '!']);
    let mut normalized: Vec<char> = Vec::new();
    if lo == hi {
        normalized = to_chars("#!/bin/sh\n");
        proof {
            reveal_strlit("#!/bin/sh\n");
        }
        assert(normalized@ =~= shebang_line());
    } else if occurs_at_exec(&e, &shebang_pair, 0) {
        normalized = slice_chars(&e, 0, e.len());
        assert(normalized@ =~= e@);
    } else {
        normalized = to_chars("#!/bin/sh\n\n");
        proof {
            reveal_strlit("#!/bin/sh\n\n");
        }
        let s_lo = strip_start_index(&e, 0, &Strip::Whitespace);
        assert(e@.subrange(0, e@.len() as int) =~= e@);
        let rest = slice_chars(&e, s_lo, e.len());
        append_chars(&mut normalized, &rest);
        assert(normalized@ =~= shebang_line() + nl() + strip_start(e@, Strip::Whitespace));
    }
    assert(normalized@ == normalized_hook(existing@));
    let text = from_chars(&normalized);
    replace_marked_block(text.as_str(), MANAGED_START, MANAGED_END, HOOK_SNIPPET)
}

/// The managed block as it is written into the hook: the snippet without
/// its final newline.
pub open spec fn managed_block() -> Seq<char> {
    strip_end(hook_snippet(), Strip::Whitespace)
}

proof fn lemma_snippet_facts()
    ensures
        start_marker().len() == 28,
        end_marker().len() == 26,
        hook_snippet().len() == 184,
        managed_block() == hook_snippet().take(183),
        forall|j: int| 0 <= j < 183 && j != 0 && j != 157 ==> #[trigger] hook_snippet()[j] != '#',
        hook_snippet()[0] == '#',
        hook_snippet()[2] == '>',
        hook_snippet()[157] == '#',
        hook_snippet()[159] == '<',
        hook_snippet().subrange(0, 28) == start_marker(),
        hook_snippet().subrange(157, 183) == end_marker(),
        start_marker()[0] == '#',
        start_marker()[1] == ' ',
        end_marker()[0] == '#',
        end_marker()[1] == ' ',
        end_marker()[2] == '<',
        forall|j: int| 0 <= j < 28 ==> #[trigger] start_marker()[j] != '\n',
        forall|j: int| 0 <= j < 26 ==> #[trigger] end_marker()[j] != '\n',
{
    reveal_strlit("# >>> garc managed start >>>");
    reveal_strlit("# <<< garc managed end <<<");
    reveal_strlit(
        "# >>> garc managed start >>>\nif command -v camp >/dev/null 2>&1; then\n  camp update --branch \"$(git rev-parse --abbrev-ref HEAD)\" >/dev/null 2>&1 || true\nfi\n# <<< garc managed end <<<\n",
    );
    let h = hook_snippet();
    assert(is_ws(h[183]));
    assert(!is_ws(h[182]));
    lemma_strip_end_at(h, Strip::Whitespace, 183);
    assert(h.subrange(0, 28) =~= start_marker());
    assert(h.subrange(157, 183) =~= end_marker());
}

/// A pattern without newlines cannot occur across a newline.
proof fn lemma_no_occurrence_over_newline(y: Seq<char>, pat: Seq<char>, q: int, t: int)
    requires
        q <= t < q + pat.len(),
        0 <= t < y.len(),
        y[t] == '\n',
        forall|j: int| 0 <= j < pat.len() ==> #[trigger] pat[j] != '\n',
    ensures
        !occurs_at(y, pat, q),
{
    if occurs_at(y, pat, q) {
        assert(y.subrange(q, q + pat.len())[t - q] == y[t]);
    }
}

/// An occurrence inside a prefix is an occurrence in the whole.
proof fn lemma_occurrence_in_prefix(b: Seq<char>, y: Seq<char>, pat: Seq<char>, q: int)
    requires
        b.len() <= y.len(),
        y.subrange(0, b.len() as int) == b,
        occurs_at(b, pat, q),
    ensures
        occurs_at(y, pat, q),
{
    assert(y.subrange(q, q + pat.len()) =~= b.subrange(q, q + pat.len()));
}

/// Hook text already holding the managed block after some user text, with
/// nothing after the block, is left as it is by installing again.
proof fn lemma_merge_of_settled(b: Seq<char>)
    requires
        b.len() >= 2,
        b[0] == '#',
        b[1] == '!',
        !is_ws(b.last()),
        forall|j: int| !#[trigger] occurs_at(b, start_marker(), j),
        forall|j: int| !#[trigger] occurs_at(b, end_marker(), j),
    ensures
        merged_hook(b + nl2() + managed_block() + nl()) == b + nl2() + managed_block() + nl(),
{
    lemma_snippet_facts();
    let r = managed_block();
    let y = b + nl2() + r + nl();
    let l = b.len() as int;
    let sm = start_marker();
    let em = end_marker();
    assert(y[0] == '#' && y[1] == '!');
    // the text is its own normal form
    let a0 = lemma_strip_start_cut(y, Strip::Whitespace);
    assert(a0 == 0);
    let h0 = lemma_strip_end_cut(y, Strip::Whitespace);
    assert(h0 >= 1);
    assert(strip(y, Strip::Whitespace).len() > 0);
    assert(y.subrange(0, 2) =~= seq!['#', '!']);
    assert(normalized_hook(y) == y);
    // where the markers are found
    assert(y.subrange(l + 2, l + 30) =~= r.subrange(0, 28));
    assert(r.subrange(0, 28) =~= hook_snippet().subrange(0, 28));
    assert(occurs_at(y, sm, l + 2));
    assert forall|j: int| 0 <= j < l + 2 implies !#[trigger] occurs_at(y, sm, j) by {
        if j + 28 <= l {
            if occurs_at(y, sm, j) {
                assert(b.subrange(j, j + 28) =~= y.subrange(j, j + 28));
                assert(occurs_at(b, sm, j));
            }
        } else if j <= l {
            lemma_no_occurrence_over_newline(y, sm, j, l);
        } else {
            lemma_no_occurrence_over_newline(y, sm, j, l + 1);
        }
    }
    lemma_find_is_first(y, sm, l + 2);
    assert(y.subrange(l + 159, l + 185) =~= r.subrange(157, 183));
    assert(r.subrange(157, 183) =~= hook_snippet().subrange(157, 183));
    assert(occurs_at(y, em, l + 159));
    assert forall|j: int| 0 <= j < l + 159 implies !#[trigger] occurs_at(y, em, j) by {
        if j + 26 <= l {
            if occurs_at(y, em, j) {
                assert(b.subrange(j, j + 26) =~= y.subrange(j, j + 26));
                assert(occurs_at(b, em, j));
            }
        } else if j <= l {
            lemma_no_occurrence_over_newline(y, em, j, l);
        } else if j == l + 1 {
            lemma_no_occurrence_over_newline(y, em, j, l + 1);
        } else if occurs_at(y, em, j) {
            assert(y.subrange(j, j + 26)[0] == y[j]);
            assert(y[j] == r[j - l - 2]);
            assert(y.subrange(j, j + 26)[2] == y[j + 2]);
            assert(y[j + 2] == r[j - l]);
        }
    }
    lemma_find_is_first(y, em, l + 159);
    // the text around the block
    assert(y.subrange(0, l + 2) =~= b + nl2());
    lemma_strip_end_at(b + nl2(), Strip::Whitespace, l);
    assert((b + nl2()).take(l) =~= b);
    assert(y.subrange(l + 159 + 26, y.len() as int) =~= nl());
    lemma_strip_start_at(nl(), Strip::Whitespace, 1);
    assert(nl().skip(1) =~= Seq::<char>::empty());
}

/// Hook text already holding the managed block between some user text and
/// more user text (white space trimmed) is left as it is by installing again.
#[verifier::rlimit(60)]
proof fn lemma_merge_of_block(b: Seq<char>, a: Seq<char>)
    requires
        b.len() >= 2,
        b[0] == '#',
        b[1] == '!',
        !is_ws(b.last()),
        forall|j: int| !#[trigger] occurs_at(b, start_marker(), j),
        forall|j: int| !#[trigger] occurs_at(b, end_marker(), j),
        a.len() > 0,
        !is_ws(a[0]),
        !is_ws(a.last()),
    ensures
        merged_hook(b + nl2() + managed_block() + nl2() + a + nl()) == b + nl2() + managed_block()
            + nl2() + a + nl(),
{
    lemma_snippet_facts();
    let r = managed_block();
    let y = b + nl2() + r + nl2() + a + nl();
    let l = b.len() as int;
    let sm = start_marker();
    let em = end_marker();
    assert(y[0] == '#' && y[1] == '!');
    // the text is its own normal form
    let a0 = lemma_strip_start_cut(y, Strip::Whitespace);
    assert(a0 == 0);
    let h0 = lemma_strip_end_cut(y, Strip::Whitespace);
    assert(h0 >= 1);
    assert(strip(y, Strip::Whitespace).len() > 0);
    assert(y.subrange(0, 2) =~= seq!['#', '!']);
    assert(normalized_hook(y) == y);
    // where the markers are found
    assert(y.subrange(l + 2, l + 30) =~= r.subrange(0, 28));
    assert(r.subrange(0, 28) =~= hook_snippet().subrange(0, 28));
    assert(occurs_at(y, sm, l + 2));
    assert forall|j: int| 0 <= j < l + 2 implies !#[trigger] occurs_at(y, sm, j) by {
        if j + 28 <= l {
            if occurs_at(y, sm, j) {
                assert(b.subrange(j, j + 28) =~= y.subrange(j, j + 28));
                assert(occurs_at(b, sm, j));
            }
        } else if j <= l {
            lemma_no_occurrence_over_newline(y, sm, j, l);
        } else {
            lemma_no_occurrence_over_newline(y, sm, j, l + 1);
        }
    }
    lemma_find_is_first(y, sm, l + 2);
    assert(y.subrange(l + 159, l + 185) =~= r.subrange(157, 183));
    assert(r.subrange(157, 183) =~= hook_snippet().subrange(157, 183));
    assert(occurs_at(y, em, l + 159));
    assert forall|j: int| 0 <= j < l + 159 implies !#[trigger] occurs_at(y, em, j) by {
        if j + 26 <= l {
            if occurs_at(y, em, j) {
                assert(b.subrange(j, j + 26) =~= y.subrange(j, j + 26));
                assert(occurs_at(b, em, j));
            }
        } else if j <= l {
            lemma_no_occurrence_over_newline(y, em, j, l);
        } else if j == l + 1 {
            lemma_no_occurrence_over_newline(y, em, j, l + 1);
        } else if occurs_at(y, em, j) {
            assert(y.subrange(j, j + 26)[0] == y[j]);
            assert(y[j] == r[j - l - 2]);
            assert(y.subrange(j, j + 26)[2] == y[j + 2]);
            assert(y[j + 2] == r[j - l]);
        }
    }
    lemma_find_is_first(y, em, l + 159);
    // the text around the block
    assert(y.subrange(0, l + 2) =~= b + nl2());
    lemma_strip_end_at(b + nl2(), Strip::Whitespace, l);
    assert((b + nl2()).take(l) =~= b);
    let rest = nl2() + a + nl();
    assert(y.subrange(l + 159 + 26, y.len() as int) =~= rest);
    lemma_strip_start_at(rest, Strip::Whitespace, 2);
    assert(rest.skip(2) =~= a + nl());
    lemma_strip_end_at(a + nl(), Strip::Whitespace, a.len() as int);
    assert((a + nl()).take(a.len() as int) =~= a);
}

/// In user text without markers followed by the managed block, each marker
/// occurs exactly once: where the block puts it.
#[verifier::rlimit(60)]
proof fn lemma_block_markers_once(b: Seq<char>)
    requires
        b.len() >= 2,
        forall|j: int| !#[trigger] occurs_at(b, start_marker(), j),
        forall|j: int| !#[trigger] occurs_at(b, end_marker(), j),
    ensures
        forall|j: int|
            #[trigger] occurs_at(b + nl2() + managed_block() + nl(), start_marker(), j) <==> j
                == b.len() + 2,
        forall|j: int|
            #[trigger] occurs_at(b + nl2() + managed_block() + nl(), end_marker(), j) <==> j
                == b.len() + 159,
{
    lemma_snippet_facts();
    let r = managed_block();
    let y = b + nl2() + r + nl();
    let l = b.len() as int;
    let sm = start_marker();
    let em = end_marker();
    assert(y.subrange(l + 2, l + 30) =~= r.subrange(0, 28));
    assert(r.subrange(0, 28) =~= hook_snippet().subrange(0, 28));
    assert(y.subrange(l + 159, l + 185) =~= r.subrange(157, 183));
    assert(r.subrange(157, 183) =~= hook_snippet().subrange(157, 183));
    assert forall|j: int| #[trigger] occurs_at(y, sm, j) implies j == l + 2 by {
        if j + 28 <= l {
            assert(b.subrange(j, j + 28) =~= y.subrange(j, j + 28));
            assert(occurs_at(b, sm, j));
        } else if j <= l {
            lemma_no_occurrence_over_newline(y, sm, j, l);
        } else if j == l + 1 {
            lemma_no_occurrence_over_newline(y, sm, j, l + 1);
        } else if j != l + 2 {
            assert(y.subrange(j, j + 28)[0] == y[j]);
            assert(y[j] == r[j - l - 2]);
            assert(y.subrange(j, j + 28)[2] == y[j + 2]);
            assert(y[j + 2] == r[j - l]);
        }
    }
    assert forall|j: int| #[trigger] occurs_at(y, em, j) implies j == l + 159 by {
        if j + 26 <= l {
            assert(b.subrange(j, j + 26) =~= y.subrange(j, j + 26));
            assert(occurs_at(b, em, j));
        } else if j <= l {
            lemma_no_occurrence_over_newline(y, em, j, l);
        } else if j == l + 1 {
            lemma_no_occurrence_over_newline(y, em, j, l + 1);
        } else if j != l + 159 {
            assert(y.subrange(j, j + 26)[0] == y[j]);
            assert(y[j] == r[j - l - 2]);
            assert(y.subrange(j, j + 26)[2] == y[j + 2]);
            assert(y[j + 2] == r[j - l]);
        }
    }
    assert(occurs_at(y, sm, l + 2));
    assert(occurs_at(y, em, l + 159));
}

/// The first `start` marker is preceded by at least the shebang pair.
proof fn lemma_normalized_start(x: Seq<char>)
    ensures
        normalized_hook(x).len() >= 2,
        normalized_hook(x)[0] == '#',
        normalized_hook(x)[1] == '!',
{
    let n = normalized_hook(x);
    if strip(x, Strip::Whitespace).len() != 0 && starts_with(x, seq!['#', '!']) {
        assert(x.subrange(0, 2)[0] == x[0]);
        assert(x.subrange(0, 2)[1] == x[1]);
    }
}

/// Hook texts whose markers, if any, open and close a block: after the
/// shebang line is added, they hold neither marker, or their first start
/// marker comes no later than their first end marker.
pub open spec fn hook_markers_form_block(x: Seq<char>) -> bool {
    let n = normalized_hook(x);
    ||| (find(n, start_marker()) is None && find(n, end_marker()) is None)
    ||| (find(n, start_marker()) matches Some(s) && find(n, end_marker()) matches Some(e) && e >= s)
}

/// Installing the hook twice gives the same text as installing it once, for
/// every hook text that holds no managed block yet and for every hook text
/// that holds one, whatever user text stands before or after it.
pub proof fn installing_hook_is_idempotent(x: Seq<char>)
    requires
        hook_markers_form_block(x),
    ensures
        merged_hook(merged_hook(x)) == merged_hook(x),
{
    lemma_snippet_facts();
    lemma_normalized_start(x);
    let n = normalized_hook(x);
    let sm = start_marker();
    let em = end_marker();
    let r = managed_block();
    lemma_find_from(n, sm, 0);
    lemma_find_from(n, em, 0);
    assert(!occurs_at(n, sm, 0) && !occurs_at(n, sm, 1)) by {
        if occurs_at(n, sm, 0) {
            assert(n.subrange(0, 28)[1] == n[1]);
        }
        if occurs_at(n, sm, 1) {
            assert(n.subrange(1, 29)[0] == n[1]);
        }
    }
    let a0 = lemma_strip_start_cut(n, Strip::Whitespace);
    assert(a0 == 0);
    let hn = lemma_strip_end_cut(n, Strip::Whitespace);
    assert(hn >= 2);
    if find(n, sm) is None && find(n, em) is None {
        let b = strip_end(n, Strip::Whitespace);
        assert(b == n.take(hn));
        assert(merged_hook(x) == b + nl2() + r + nl());
        assert forall|j: int| !#[trigger] occurs_at(b, sm, j) by {
            if occurs_at(b, sm, j) {
                lemma_occurrence_in_prefix(b, n, sm, j);
            }
        }
        assert forall|j: int| !#[trigger] occurs_at(b, em, j) by {
            if occurs_at(b, em, j) {
                lemma_occurrence_in_prefix(b, n, em, j);
            }
        }
        lemma_merge_of_settled(b);
    } else {
        let s = find(n, sm)->0;
        let e = find(n, em)->0;
        assert(s >= 2);
        let pre = n.subrange(0, s);
        let h = lemma_strip_end_cut(pre, Strip::Whitespace);
        assert(pre[1] == n[1]);
        assert(h >= 2);
        let b = strip_end(pre, Strip::Whitespace);
        assert(b.len() >= 2);
        assert(b[0] == n[0] && b[1] == n[1]);
        assert(b =~= n.subrange(0, h));
        assert forall|j: int| !#[trigger] occurs_at(b, sm, j) by {
            if occurs_at(b, sm, j) {
                lemma_occurrence_in_prefix(b, n, sm, j);
            }
        }
        assert forall|j: int| !#[trigger] occurs_at(b, em, j) by {
            if occurs_at(b, em, j) {
                lemma_occurrence_in_prefix(b, n, em, j);
            }
        }
        let sub = n.subrange(e + 26, n.len() as int);
        let a = strip(sub, Strip::Whitespace);
        lemma_strip_ends(sub, Strip::Whitespace);
        if a.len() == 0 {
            assert(merged_hook(x) == b + nl2() + r + nl());
            lemma_merge_of_settled(b);
        } else {
            assert(merged_hook(x) == b + nl2() + r + nl2() + a + nl());
            lemma_merge_of_block(b, a);
        }
    }
}

/// Installing always leaves the managed block in the hook text.
pub proof fn installed_hook_holds_managed_block(x: Seq<char>)
    ensures
        exists|i: int| occurs_at(merged_hook(x), managed_block(), i),
{
    let n = normalized_hook(x);
    let r = managed_block();
    let y = merged_hook(x);
    let sm = start_marker();
    let em = end_marker();
    let p: Seq<char> = if let (Some(s), Some(e)) = (find(n, sm), find(n, em)) {
        if e >= s {
            let before = strip_end(n.subrange(0, s), Strip::Whitespace);
            if before.len() == 0 {
                Seq::empty()
            } else {
                before + nl2()
            }
        } else if strip(n, Strip::Whitespace).len() == 0 {
            Seq::empty()
        } else {
            strip_end(n, Strip::Whitespace) + nl2()
        }
    } else if strip(n, Strip::Whitespace).len() == 0 {
        Seq::empty()
    } else {
        strip_end(n, Strip::Whitespace) + nl2()
    };
    assert(y.subrange(0, (p.len() + r.len()) as int) =~= p + r);
    assert(y.subrange(p.len() as int, (p.len() + r.len()) as int) =~= r);
    assert(occurs_at(y, r, p.len() as int));
}

/// A hook script without a managed block keeps its text, only trailing
/// white space dropped, in front of the block that installing appends.
pub proof fn installing_hook_keeps_existing_script(x: Seq<char>)
    requires
        starts_with(x, seq!['#', '!']),
        find(x, start_marker()) is None,
        find(x, end_marker()) is None,
    ensures
        merged_hook(x) == strip_end(x, Strip::Whitespace) + nl2() + managed_block() + nl(),
{
    assert(x.subrange(0, 2)[0] == x[0]);
    let a = lemma_strip_start_cut(x, Strip::Whitespace);
    assert(a == 0);
    let h = lemma_strip_end_cut(x, Strip::Whitespace);
    assert(h >= 1);
    assert(normalized_hook(x) == x);
}

/// `pat` occurs in `y` at exactly one place.
pub open spec fn occurs_once(y: Seq<char>, pat: Seq<char>) -> bool {
    exists|p: int| occurs_at(y, pat, p) && forall|j: int| #[trigger] occurs_at(y, pat, j) ==> j == p
}

/// Installing into a hook text that holds no marker yet leaves exactly one
/// managed block: each marker occurs once.
pub proof fn installed_hook_holds_one_block(x: Seq<char>)
    requires
        find(normalized_hook(x), start_marker()) is None,
        find(normalized_hook(x), end_marker()) is None,
    ensures
        occurs_once(merged_hook(x), start_marker()),
        occurs_once(merged_hook(x), end_marker()),
{
    lemma_snippet_facts();
    lemma_normalized_start(x);
    let n = normalized_hook(x);
    let sm = start_marker();
    let em = end_marker();
    let r = managed_block();
    lemma_find_from(n, sm, 0);
    lemma_find_from(n, em, 0);
    let a0 = lemma_strip_start_cut(n, Strip::Whitespace);
    let hn = lemma_strip_end_cut(n, Strip::Whitespace);
    assert(hn >= 2);
    let b = strip_end(n, Strip::Whitespace);
    assert(b == n.take(hn));
    assert(merged_hook(x) == b + nl2() + r + nl());
    assert forall|j: int| !#[trigger] occurs_at(b, sm, j) by {
        if occurs_at(b, sm, j) {
            lemma_occurrence_in_prefix(b, n, sm, j);
        }
    }
    assert forall|j: int| !#[trigger] occurs_at(b, em, j) by {
        if occurs_at(b, em, j) {
            lemma_occurrence_in_prefix(b, n, em, j);
        }
    }
    lemma_block_markers_once(b);
    let y = merged_hook(x);
    assert(occurs_at(y, sm, b.len() + 2 as int));
    assert(occurs_at(y, em, b.len() + 159 as int));
}

} // verus!
