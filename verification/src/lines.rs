//! Splitting a file's text into logical lines.
//!
//! A logical line ends at a newline that stands outside quoted text. The
//! newline itself is kept as the first character of the line that follows,
//! so the lines, put end to end, are the file.

use vstd::prelude::*;

verus! {

/// The number of quote characters in `s`.
pub open spec fn quote_count(s: Seq<char>) -> nat
    decreases s.len(),
{
    if s.len() == 0 {
        0
    } else {
        quote_count(s.drop_last()) + if s.last() == '"' {
            1nat
        } else {
            0nat
        }
    }
}

/// Whether a scan of `s` that starts outside quoted text ends inside it:
/// every quote character toggles, so this is the parity of their number.
pub open spec fn in_quotes(s: Seq<char>) -> bool {
    quote_count(s) % 2 == 1
}

/// Whether position `i` of `s` holds a newline outside quoted text.
pub open spec fn is_line_break(s: Seq<char>, i: int) -> bool {
    0 <= i < s.len() && s[i] == '\n' && !in_quotes(s.take(i))
}

/// The logical lines of `s`.
pub open spec fn lines_of(s: Seq<char>) -> Seq<Seq<char>>
    decreases s.len(),
{
    if s.len() == 0 {
        seq![Seq::<char>::empty()]
    } else {
        let before = lines_of(s.drop_last());
        if is_line_break(s, s.len() - 1) {
            before.push(seq![s.last()])
        } else {
            before.update(before.len() - 1, before.last().push(s.last()))
        }
    }
}

/// Splits `file` into its logical lines.
pub fn split_lines(file: &str) -> (out: Vec<String>)
    ensures
        out.deep_view() == lines_of(file@),
        out.deep_view().flatten() == file@,
{
    proof {
        lemma_round_trip(file@);
    }
    let mut out: Vec<String> = Vec::new();
    let mut current = String::new();
    let mut text = false;
    for c in it: file.chars()
        invariant
            it.seq() == file@,
            text == in_quotes(file@.take(it.index())),
            out.deep_view().push(current@) == lines_of(file@.take(it.index())),
    {
        let ghost i = it.index();
        let ghost done = file@.take(i + 1);
        proof {
            assert(done.drop_last() == file@.take(i));
            assert(done.take(i) == file@.take(i));
            assert(done.last() == c);
        }
        if c == '"' {
            text = !text;
            current.push(c);
        } else if c == '\n' && !text {
            out.push(current);
            current = String::new();
            current.push(c);
        } else {
            current.push(c);
        }
        proof {
            assert(out.deep_view().push(current@) =~= lines_of(done));
        }
    }
    proof {
        assert(file@.take(file@.len() as int) == file@);
    }
    out.push(current);
    proof {
        assert(out.deep_view() =~= lines_of(file@));
    }
    out
}

/// The quote characters of two texts add up when one follows the other.
pub proof fn lemma_quote_count_concat(a: Seq<char>, b: Seq<char>)
    ensures
        quote_count(a + b) == quote_count(a) + quote_count(b),
    decreases b.len(),
{
    if b.len() == 0 {
        assert(a + b =~= a);
    } else {
        lemma_quote_count_concat(a, b.drop_last());
        assert((a + b).drop_last() =~= a + b.drop_last());
    }
}

/// The number of newlines of `s` that stand outside quoted text.
pub open spec fn line_break_count(s: Seq<char>) -> nat
    decreases s.len(),
{
    if s.len() == 0 {
        0
    } else {
        line_break_count(s.drop_last()) + if is_line_break(s, s.len() - 1) {
            1nat
        } else {
            0nat
        }
    }
}

/// The lines of a text, put end to end, are the text: nothing is dropped at a
/// line's end, since the newline that ends a line opens the next.
pub proof fn lemma_round_trip(s: Seq<char>)
    ensures
        lines_of(s).flatten() == s,
    decreases s.len(),
{
    broadcast use Seq::group_seq_flatten;

    if s.len() == 0 {
        assert(lines_of(s).flatten() =~= s);
    } else {
        let before = lines_of(s.drop_last());
        lemma_round_trip(s.drop_last());
        lemma_line_count(s.drop_last());
        if is_line_break(s, s.len() - 1) {
            assert(lines_of(s).flatten() =~= s);
        } else {
            let head = before.drop_last();
            let grown = before.last().push(s.last());
            assert(before =~= head.push(before.last()));
            assert(lines_of(s) =~= head.push(grown));
            head.lemma_flatten_push(before.last());
            head.lemma_flatten_push(grown);
            assert(head.flatten() + grown =~= (head.flatten() + before.last()).push(s.last()));
            assert(s.drop_last().push(s.last()) =~= s);
        }
    }
}

/// There is one line more than there are newlines outside quoted text; in
/// particular a text has at least one line, the empty text one empty line.
pub proof fn lemma_line_count(s: Seq<char>)
    ensures
        lines_of(s).len() == line_break_count(s) + 1,
        s.len() == 0 ==> lines_of(s) == seq![Seq::<char>::empty()],
    decreases s.len(),
{
    if s.len() > 0 {
        lemma_line_count(s.drop_last());
    }
}

/// Where line `k` of `s` begins: the length of the lines before it.
pub open spec fn line_start(s: Seq<char>, k: int) -> int {
    lines_of(s).take(k).flatten().len() as int
}

/// Line `k` is the stretch of `s` from where it begins. Every line after the
/// first begins at a line break, and no line holds another one.
pub proof fn lemma_line_bounds(s: Seq<char>, k: int)
    requires
        0 <= k < lines_of(s).len(),
    ensures
        line_start(s, k) + lines_of(s)[k].len() <= s.len(),
        lines_of(s)[k] == s.subrange(line_start(s, k), line_start(s, k) + lines_of(s)[k].len()),
        k > 0 ==> is_line_break(s, line_start(s, k)),
        forall|p: int|
            line_start(s, k) < p < line_start(s, k) + lines_of(s)[k].len() ==> !#[trigger] is_line_break(
                s,
                p,
            ),
    decreases s.len(),
{
    broadcast use Seq::group_seq_flatten;

    let all = lines_of(s);
    if s.len() == 0 {
        assert(all.take(k) =~= Seq::empty());
        assert(all[k] =~= s.subrange(0, 0));
    } else {
        let init = s.drop_last();
        let before = lines_of(init);
        let last = before.len() - 1;
        lemma_line_count(init);
        lemma_round_trip(init);
        assert forall|p: int| 0 <= p < init.len() implies is_line_break(init, p) == is_line_break(
            s,
            p,
        ) by {
            assert(init.take(p) =~= s.take(p));
        }
        if k <= last {
            lemma_line_bounds(init, k);
            assert(all.take(k) =~= before.take(k));
            assert(before.take(last).push(before[last]) =~= before);
            assert(all[k] =~= s.subrange(line_start(s, k), line_start(s, k) + all[k].len()));
        } else {
            assert(all.take(k) =~= before);
            assert(all[k] =~= s.subrange(line_start(s, k), line_start(s, k) + all[k].len()));
        }
    }
}

} // verus!
