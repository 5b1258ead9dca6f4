//! What is worked out of the choices given under one question.

use vstd::prelude::*;
use vstd::hash_map::StringHashMap;
use vstd::string::StringExecFns;
use vstd::relations::{sorted_by, total_ordering};
use vstd::seq_lib::lemma_sorted_unique;
use crate::answers::Answers;

verus! {

/// The items one after the other, a comma and a space between two of them.
pub open spec fn joined(items: Seq<Seq<char>>) -> Seq<char>
    decreases items.len(),
{
    if items.len() == 0 {
        Seq::empty()
    } else if items.len() == 1 {
        items[0]
    } else {
        joined(items.drop_last()) + ", "@ + items.last()
    }
}

/// The replies in one line, a comma and a space between two of them.
pub fn format_replies(replies: &Vec<&str>) -> (out: String)
    ensures
        out@ == joined(replies.deep_view()),
{
    let mut out = String::new();
    let mut i: usize = 0;
    while i < replies.len()
        invariant
            i <= replies.len(),
            out@ == joined(replies.deep_view().take(i as int)),
        decreases replies.len() - i,
    {
        proof {
            assert(replies.deep_view().take(i + 1).drop_last() =~= replies.deep_view().take(
                i as int,
            ));
            assert(replies.deep_view().take(i + 1).last() == replies[i as int]@);
        }
        if i > 0 {
            out.append(", ");
        }
        out.append(replies[i]);
        proof {
            if i == 0 {
                assert(out@ =~= replies[i as int]@);
            }
        }
        i += 1;
    }
    proof {
        assert(replies.deep_view().take(replies.len() as int) =~= replies.deep_view());
    }
    out
}

/// The scores of the replies that have one, in the order of the replies.
pub open spec fn scores_of(replies: Seq<Seq<char>>, mapping: Map<Seq<char>, i32>) -> Seq<i32> {
    replies.filter(|reply: Seq<char>| mapping.contains_key(reply)).map_values(
        |reply: Seq<char>| mapping[reply],
    )
}

/// Scores the replies by `mapping` and leaves out those that it does not score.
pub fn map_replies(replies: &Vec<&str>, mapping: &StringHashMap<i32>) -> (out: Vec<i32>)
    ensures
        out@ == scores_of(replies.deep_view(), mapping@),
{
    let mut out: Vec<i32> = Vec::new();
    let ghost scored = |reply: Seq<char>| mapping@.contains_key(reply);
    let mut i: usize = 0;
    proof {
        reveal(Seq::filter);
        assert(out@ =~= scores_of(replies.deep_view().take(0), mapping@));
    }
    while i < replies.len()
        invariant
            i <= replies.len(),
            scored == |reply: Seq<char>| mapping@.contains_key(reply),
            out@ == scores_of(replies.deep_view().take(i as int), mapping@),
        decreases replies.len() - i,
    {
        let ghost before = replies.deep_view().take(i as int);
        proof {
            assert(replies.deep_view().take(i + 1) =~= before.push(replies[i as int]@));
            before.lemma_filter_push(replies[i as int]@, scored);
        }
        match mapping.get(replies[i]) {
            Some(score) => {
                out.push(*score);
            },
            None => {},
        }
        proof {
            assert(out@ =~= scores_of(replies.deep_view().take(i + 1), mapping@));
        }
        i += 1;
    }
    proof {
        assert(replies.deep_view().take(replies.len() as int) =~= replies.deep_view());
    }
    out
}

/// How to call the program `program`.
pub fn help_message(program: &str) -> (out: String)
    ensures
        out@ == "usage: "@ + program@ + " -s \"search string\" [args] /path/to/file"@
            + "\n\nargs:"@ + "\n    -s    question to search"@
            + "\n    -r, --rank    ranks all the questions by mapping"@
            + "\n    -u, --unique    the question is an uid"@
            + "\n    -e, --exact    only include exact matches"@
            + "\n    -m    map choices to numbers (<split character>choice<split character>number)"@,
{
    let mut message = "usage: ".to_owned();
    message.append(program);
    message.append(" -s \"search string\" [args] /path/to/file");
    message.append("\n\nargs:");
    message.append("\n    -s    question to search");
    message.append("\n    -r, --rank    ranks all the questions by mapping");
    message.append("\n    -u, --unique    the question is an uid");
    message.append("\n    -e, --exact    only include exact matches");
    message.append(
        "\n    -m    map choices to numbers (<split character>choice<split character>number)",
    );
    message
}

/// How often `x` occurs among `items`.
pub open spec fn occurrences(items: Seq<Seq<char>>, x: Seq<char>) -> nat
    decreases items.len(),
{
    if items.len() == 0 {
        0
    } else {
        occurrences(items.drop_last(), x) + if items.last() == x {
            1nat
        } else {
            0nat
        }
    }
}

/// Whether reply `k` is the most popular one: it is not empty, no reply that
/// is not empty occurs more often, and none before it occurs as often.
pub open spec fn is_mode(replies: Seq<Seq<char>>, k: int) -> bool {
    &&& 0 <= k < replies.len()
    &&& replies[k].len() > 0
    &&& forall|j: int|
        0 <= j < replies.len() && (#[trigger] replies[j]).len() > 0 ==> occurrences(
            replies,
            replies[j],
        ) <= occurrences(replies, replies[k])
    &&& forall|j: int|
        0 <= j < k && (#[trigger] replies[j]).len() > 0 ==> occurrences(replies, replies[j])
            < occurrences(replies, replies[k])
}

/// An item occurs among the items at least once, and nothing occurs more
/// often than there are items.
pub proof fn lemma_occurrences(items: Seq<Seq<char>>, x: Seq<char>)
    ensures
        occurrences(items, x) <= items.len(),
        forall|k: int| 0 <= k < items.len() && #[trigger] items[k] == x ==> occurrences(items, x) >= 1,
    decreases items.len(),
{
    if items.len() > 0 {
        lemma_occurrences(items.drop_last(), x);
        assert forall|k: int| 0 <= k < items.len() && #[trigger] items[k] == x implies occurrences(
            items,
            x,
        ) >= 1 by {
            if k < items.len() - 1 {
                assert(items.drop_last()[k] == x);
            }
        }
    }
}

/// The most popular reply among those that are not empty, the earliest of
/// them where several are; `None` if every reply is empty.
pub fn mode<'a>(replies: &Vec<&'a str>) -> (out: Option<&'a str>)
    ensures
        match out {
            Some(most) => exists|k: int|
                is_mode(replies.deep_view(), k) && most@ == #[trigger] replies.deep_view()[k],
            None => forall|j: int|
                0 <= j < replies.len() ==> (#[trigger] replies.deep_view()[j]).len() == 0,
        },
{
    let ghost all = replies.deep_view();
    let mut counts: StringHashMap<usize> = StringHashMap::new();
    let mut i: usize = 0;
    while i < replies.len()
        invariant
            i <= replies.len(),
            all == replies.deep_view(),
            forall|x: Seq<char>|
                counts@.contains_key(x) <==> x.len() > 0 && occurrences(all.take(i as int), x) > 0,
            forall|x: Seq<char>|
                counts@.contains_key(x) ==> counts@[x] == occurrences(all.take(i as int), x),
        decreases replies.len() - i,
    {
        let reply = replies[i];
        proof {
            assert(all.take(i + 1).drop_last() =~= all.take(i as int));
            assert(all.take(i + 1).last() == reply@);
            lemma_occurrences(all.take(i as int), reply@);
        }
        if !reply.is_empty() {
            let seen: usize = match counts.get(reply) {
                Some(n) => *n,
                None => 0,
            };
            counts.insert(reply.to_owned(), seen + 1);
        }
        i += 1;
    }
    proof {
        assert(all.take(replies.len() as int) =~= all);
    }
    let mut best: Option<usize> = None;
    let mut most: usize = 0;
    let mut k: usize = 0;
    while k < replies.len()
        invariant
            k <= replies.len(),
            all == replies.deep_view(),
            forall|x: Seq<char>| counts@.contains_key(x) <==> x.len() > 0 && occurrences(all, x) > 0,
            forall|x: Seq<char>| counts@.contains_key(x) ==> counts@[x] == occurrences(all, x),
            best is None ==> forall|j: int| 0 <= j < k ==> (#[trigger] all[j]).len() == 0,
            best matches Some(b) ==> {
                &&& b < k
                &&& all[b as int].len() > 0
                &&& most == occurrences(all, all[b as int])
                &&& forall|j: int|
                    0 <= j < k && (#[trigger] all[j]).len() > 0 ==> occurrences(all, all[j]) <= most
                &&& forall|j: int|
                    0 <= j < b && (#[trigger] all[j]).len() > 0 ==> occurrences(all, all[j]) < most
            },
        decreases replies.len() - k,
    {
        let reply = replies[k];
        proof {
            assert(all[k as int] == reply@);
            lemma_occurrences(all, reply@);
        }
        if !reply.is_empty() {
            let seen: usize = match counts.get(reply) {
                Some(n) => *n,
                None => 0,
            };
            let better = match best {
                Some(_) => seen > most,
                None => true,
            };
            if better {
                best = Some(k);
                most = seen;
            }
        }
        k += 1;
    }
    match best {
        Some(b) => {
            assert(is_mode(all, b as int));
            Some(replies[b])
        },
        None => None,
    }
}

/// The score of a reply, if it has one.
pub open spec fn score_of(mapping: Map<Seq<char>, i32>, reply: Seq<char>) -> Option<i32> {
    if mapping.contains_key(reply) {
        Some(mapping[reply])
    } else {
        None
    }
}

/// The order of scores: no score comes before any score, and scores go by
/// their numbers.
pub open spec fn score_le(a: Option<i32>, b: Option<i32>) -> bool {
    match (a, b) {
        (None, _) => true,
        (Some(_), None) => false,
        (Some(x), Some(y)) => x <= y,
    }
}

/// Whether the replies stand in the order of their scores.
pub open spec fn in_score_order(replies: Seq<Seq<char>>, mapping: Map<Seq<char>, i32>) -> bool {
    forall|i: int, j: int|
        0 <= i <= j < replies.len() ==> score_le(
            score_of(mapping, #[trigger] replies[i]),
            score_of(mapping, #[trigger] replies[j]),
        )
}

/// The replies whose score is `score`, in their order.
pub open spec fn with_score(replies: Seq<Seq<char>>, mapping: Map<Seq<char>, i32>, score: Option<i32>) -> Seq<
    Seq<char>,
> {
    replies.filter(|reply: Seq<char>| score_of(mapping, reply) == score)
}

/// Whether `a` comes before `b` or beside it in the order of scores.
fn score_before(a: Option<i32>, b: Option<i32>) -> (out: bool)
    ensures
        out == score_le(a, b),
{
    match a {
        None => true,
        Some(x) => match b {
            None => false,
            Some(y) => x <= y,
        },
    }
}

/// Puts the replies in the order of their scores, those without a score
/// first. Replies of one score stay in the order in which they came.
pub fn sort_replies<'a>(replies: Vec<&'a str>, mapping: &StringHashMap<i32>) -> (out: Vec<&'a str>)
    ensures
        in_score_order(out.deep_view(), mapping@),
        forall|score: Option<i32>|
            with_score(out.deep_view(), mapping@, score) == with_score(
                replies.deep_view(),
                mapping@,
                score,
            ),
{
    let ghost all = replies.deep_view();
    let mut out: Vec<&'a str> = Vec::new();
    let mut keys: Vec<Option<i32>> = Vec::new();
    let mut i: usize = 0;
    proof {
        reveal(Seq::filter);
        assert(all.take(0) =~= out.deep_view());
    }
    while i < replies.len()
        invariant
            i <= replies.len(),
            all == replies.deep_view(),
            keys.len() == out.len(),
            forall|j: int| 0 <= j < out.len() ==> keys[j] == score_of(mapping@, #[trigger] out.deep_view()[j]),
            in_score_order(out.deep_view(), mapping@),
            forall|score: Option<i32>|
                with_score(out.deep_view(), mapping@, score) == with_score(
                    all.take(i as int),
                    mapping@,
                    score,
                ),
        decreases replies.len() - i,
    {
        let reply = replies[i];
        let key: Option<i32> = match mapping.get(reply) {
            Some(n) => Some(*n),
            None => None,
        };
        assert(reply@ == all[i as int]);
        assert(key == score_of(mapping@, reply@));
        let mut p: usize = out.len();
        while p > 0 && !score_before(keys[p - 1], key)
            invariant
                p <= out.len(),
                keys.len() == out.len(),
                forall|j: int| p <= j < out.len() ==> !score_le(#[trigger] keys[j], key),
            decreases p,
        {
            p -= 1;
        }
        let ghost before = out.deep_view();
        out.insert(p, reply);
        keys.insert(p, key);
        proof {
            let after = out.deep_view();
            let low = before.take(p as int);
            let high = before.skip(p as int);
            assert(after =~= low.push(reply@) + high);
            assert(before =~= low + high);
            assert forall|j: int| 0 <= j < after.len() implies keys[j] == score_of(
                mapping@,
                #[trigger] after[j],
            ) by {
                if j < p {
                    assert(after[j] == before[j]);
                } else if j > p {
                    assert(after[j] == before[j - 1]);
                }
            }
            assert forall|a: int, b: int| 0 <= a <= b < after.len() implies score_le(
                score_of(mapping@, #[trigger] after[a]),
                score_of(mapping@, #[trigger] after[b]),
            ) by {
                let ka = score_of(mapping@, after[a]);
                let kb = score_of(mapping@, after[b]);
                if a < p && b > p {
                    assert(after[a] == before[a] && after[b] == before[b - 1]);
                } else if a < p && b < p {
                    assert(after[a] == before[a] && after[b] == before[b]);
                } else if a > p {
                    assert(after[a] == before[a - 1] && after[b] == before[b - 1]);
                } else if a < p && b == p {
                    assert(after[a] == before[a]);
                    assert(score_le(score_of(mapping@, before[a]), score_of(mapping@, before[p - 1])));
                } else if a == p && b > p {
                    assert(after[b] == before[b - 1]);
                }
            }
            assert forall|score: Option<i32>|
                with_score(after, mapping@, score) == with_score(
                    all.take(i + 1),
                    mapping@,
                    score,
                ) by {
                let wanted = |r: Seq<char>| score_of(mapping@, r) == score;
                assert(with_score(before, mapping@, score) == with_score(
                    all.take(i as int),
                    mapping@,
                    score,
                ));
                Seq::filter_distributes_over_add(low.push(reply@), high, wanted);
                Seq::filter_distributes_over_add(low, high, wanted);
                low.lemma_filter_push(reply@, wanted);
                all.take(i as int).lemma_filter_push(reply@, wanted);
                assert(all.take(i + 1) =~= all.take(i as int).push(reply@));
                if key == score {
                    assert(high.all(|r: Seq<char>| !wanted(r))) by {
                        assert forall|j: int| 0 <= j < high.len() implies !wanted(high[j]) by {
                            assert(high[j] == before[p + j]);
                            assert(!score_le(keys@.remove(p as int)[p + j], key));
                        }
                    }
                    high.lemma_all_neg_filter_empty(wanted);
                    assert(high.filter(wanted) =~= Seq::empty());
                    assert(low.filter(wanted).push(reply@) + high.filter(wanted) =~= (low.filter(
                        wanted,
                    ) + high.filter(wanted)).push(reply@));
                }
            }
        }
        i += 1;
    }
    proof {
        assert(all.take(replies.len() as int) =~= all);
    }
    out
}

/// What a choice counts for in a ranking: its score, or nothing.
pub open spec fn rank_score(mapping: Map<Seq<char>, i32>, choice: Seq<char>) -> int {
    if mapping.contains_key(choice) {
        mapping[choice] as int
    } else {
        0
    }
}

/// The sum of two totals, unless one of them is missing or the sum is no `i32`.
pub open spec fn sum_in_range(a: Option<int>, b: Option<int>) -> Option<int> {
    match (a, b) {
        (Some(x), Some(y)) => if i32::MIN <= x + y <= i32::MAX {
            Some(x + y)
        } else {
            None
        },
        _ => None,
    }
}

/// What the choices of one field count for, added up from the first on;
/// `None` once the sum is no `i32`.
pub open spec fn field_total(field: Seq<Seq<char>>, mapping: Map<Seq<char>, i32>) -> Option<int>
    decreases field.len(),
{
    if field.len() == 0 {
        Some(0)
    } else {
        sum_in_range(field_total(field.drop_last(), mapping), Some(rank_score(mapping, field.last())))
    }
}

/// What the fields under label `index` count for, added up from the first
/// reply on; `None` once a sum is no `i32`.
pub open spec fn column_total(
    replies: Seq<Seq<Seq<Seq<char>>>>,
    index: int,
    mapping: Map<Seq<char>, i32>,
) -> Option<int>
    decreases replies.len(),
{
    if replies.len() == 0 {
        Some(0)
    } else {
        sum_in_range(
            column_total(replies.drop_last(), index, mapping),
            field_total(replies.last()[index], mapping),
        )
    }
}

/// What the choices of `field` count for, or `None` if the sum is no `i32`.
pub fn field_sum(field: &Vec<String>, mapping: &StringHashMap<i32>) -> (out: Option<i32>)
    ensures
        match out {
            Some(sum) => field_total(field.deep_view(), mapping@) == Some(sum as int),
            None => field_total(field.deep_view(), mapping@) is None,
        },
{
    let ghost all = field.deep_view();
    let mut sum: i32 = 0;
    let mut i: usize = 0;
    while i < field.len()
        invariant
            i <= field.len(),
            all == field.deep_view(),
            field_total(all.take(i as int), mapping@) == Some(sum as int),
        decreases field.len() - i,
    {
        proof {
            assert(all.take(i + 1).drop_last() =~= all.take(i as int));
            assert(all.take(i + 1).last() == field[i as int]@);
        }
        let score: i32 = match mapping.get(field[i].as_str()) {
            Some(n) => *n,
            None => 0,
        };
        match sum.checked_add(score) {
            Some(next) => {
                sum = next;
            },
            None => {
                proof {
                    lemma_field_total_stays_none(all, i + 1, mapping@);
                }
                return None;
            },
        }
        i += 1;
    }
    proof {
        assert(all.take(field.len() as int) =~= all);
    }
    Some(sum)
}

/// Once the sum of a field's first choices is no `i32`, the field has no total.
pub proof fn lemma_field_total_stays_none(field: Seq<Seq<char>>, n: int, mapping: Map<Seq<char>, i32>)
    requires
        0 <= n <= field.len(),
        field_total(field.take(n), mapping) is None,
    ensures
        field_total(field, mapping) is None,
    decreases field.len() - n,
{
    if n < field.len() {
        assert(field.take(n + 1).drop_last() =~= field.take(n));
        lemma_field_total_stays_none(field, n + 1, mapping);
    } else {
        assert(field.take(n) =~= field);
    }
}

/// Once the sum over the first replies is no `i32`, the label has no total.
pub proof fn lemma_column_total_stays_none(
    replies: Seq<Seq<Seq<Seq<char>>>>,
    n: int,
    index: int,
    mapping: Map<Seq<char>, i32>,
)
    requires
        0 <= n <= replies.len(),
        column_total(replies.take(n), index, mapping) is None,
    ensures
        column_total(replies, index, mapping) is None,
    decreases replies.len() - n,
{
    if n < replies.len() {
        assert(replies.take(n + 1).drop_last() =~= replies.take(n));
        lemma_column_total_stays_none(replies, n + 1, index, mapping);
    } else {
        assert(replies.take(n) =~= replies);
    }
}

/// For every label, what the choices given under it count for in all;
/// `None` if, for some label, a sum on the way is no `i32`.
pub fn rank_sums(answers: &Answers, mapping: &StringHashMap<i32>) -> (out: Option<Vec<i32>>)
    ensures
        match out {
            Some(sums) => {
                &&& sums.len() == answers@.labels.len()
                &&& forall|k: int|
                    0 <= k < sums.len() ==> column_total(answers@.replies, k, mapping@) == Some(
                        #[trigger] sums[k] as int,
                    )
            },
            None => exists|k: int|
                0 <= k < answers@.labels.len() && #[trigger] column_total(
                    answers@.replies,
                    k,
                    mapping@,
                ) is None,
        },
{
    let labels = answers.labels();
    let replies = answers.replies();
    let ghost all = replies.deep_view();
    let mut sums: Vec<i32> = Vec::new();
    let mut index: usize = 0;
    while index < labels.len()
        invariant
            index <= labels.len(),
            labels.deep_view() == answers@.labels,
            all == replies.deep_view(),
            all == answers@.replies,
            answers@.consistent(),
            sums.len() == index,
            forall|k: int|
                0 <= k < index ==> column_total(all, k, mapping@) == Some(#[trigger] sums[k] as int),
        decreases labels.len() - index,
    {
        let mut sum: i32 = 0;
        let mut i: usize = 0;
        while i < replies.len()
            invariant
                i <= replies.len(),
                index < labels.len(),
                labels.deep_view() == answers@.labels,
                all == replies.deep_view(),
                all == answers@.replies,
                answers@.consistent(),
                column_total(all.take(i as int), index as int, mapping@) == Some(sum as int),
            decreases replies.len() - i,
        {
            proof {
                assert(all.take(i + 1).drop_last() =~= all.take(i as int));
                assert(all.take(i + 1).last() == replies[i as int].deep_view());
                assert(all[i as int].len() == labels.len());
                assert(replies[i as int].deep_view()[index as int] == replies[i as int][index as int].deep_view());
            }
            let next = match field_sum(&replies[i][index], mapping) {
                Some(mapped) => sum.checked_add(mapped),
                None => None,
            };
            match next {
                Some(next) => {
                    sum = next;
                },
                None => {
                    proof {
                        lemma_column_total_stays_none(all, i + 1, index as int, mapping@);
                    }
                    return None;
                },
            }
            i += 1;
        }
        proof {
            assert(all.take(replies.len() as int) =~= all);
        }
        sums.push(sum);
        index += 1;
    }
    Some(sums)
}

/// The values in ascending order.
pub open spec fn ascending(values: Seq<i32>) -> Seq<i32> {
    values.sort_by(|x: i32, y: i32| x <= y)
}

/// `sort` of a slice of `i32`: afterwards the same values stand in ascending
/// order.
#[verifier::external_body]
fn sort_values(values: &mut Vec<i32>)
    ensures
        final(values)@.to_multiset() == old(values)@.to_multiset(),
        sorted_by(final(values)@, |x: i32, y: i32| x <= y),
{
    values.sort();
}

/// What stands in the middle of some values.
#[derive(Clone, Copy, Debug, PartialEq, Eq, Structural)]
pub enum Middle {
    /// There are no values.
    Empty,
    /// The value in the middle of an odd number of values.
    One(i32),
    /// The two values in the middle of an even number of values, the lower
    /// one first.
    Two(i32, i32),
}

/// What stands in the middle of the values in ascending order.
pub open spec fn middle_of(values: Seq<i32>) -> Middle {
    let sorted = ascending(values);
    let half = values.len() / 2;
    if values.len() == 0 {
        Middle::Empty
    } else if values.len() % 2 == 0 {
        Middle::Two(sorted[half - 1], sorted[half as int])
    } else {
        Middle::One(sorted[half as int])
    }
}

/// What the median of `values` is made of: what stands in their middle once
/// they are put in ascending order.
pub fn middle(values: &Vec<i32>) -> (out: Middle)
    ensures
        out == middle_of(values@),
{
    if values.len() == 0 {
        return Middle::Empty;
    }
    let mut sorted = values.clone();
    sort_values(&mut sorted);
    proof {
        let leq = |x: i32, y: i32| x <= y;
        assert(total_ordering(leq));
        values@.lemma_sort_by_ensures(leq);
        lemma_sorted_unique(sorted@, ascending(values@), leq);
        sorted@.to_multiset_ensures();
        values@.to_multiset_ensures();
    }
    let half = values.len() / 2;
    if values.len() % 2 == 0 {
        Middle::Two(sorted[half - 1], sorted[half])
    } else {
        Middle::One(sorted[half])
    }
}

/// The values added up from the first on; `None` once the sum is no `i32`.
pub open spec fn total_of(values: Seq<i32>) -> Option<int>
    decreases values.len(),
{
    if values.len() == 0 {
        Some(0)
    } else {
        sum_in_range(total_of(values.drop_last()), Some(values.last() as int))
    }
}

/// Once the sum of the first values is no `i32`, the values have no total.
pub proof fn lemma_total_stays_none(values: Seq<i32>, n: int)
    requires
        0 <= n <= values.len(),
        total_of(values.take(n)) is None,
    ensures
        total_of(values) is None,
    decreases values.len() - n,
{
    if n < values.len() {
        assert(values.take(n + 1).drop_last() =~= values.take(n));
        lemma_total_stays_none(values, n + 1);
    } else {
        assert(values.take(n) =~= values);
    }
}

/// The sum of `values`, or `None` if a sum on the way is no `i32`.
pub fn total(values: &Vec<i32>) -> (out: Option<i32>)
    ensures
        match out {
            Some(sum) => total_of(values@) == Some(sum as int),
            None => total_of(values@) is None,
        },
{
    let mut sum: i32 = 0;
    let mut i: usize = 0;
    while i < values.len()
        invariant
            i <= values.len(),
            total_of(values@.take(i as int)) == Some(sum as int),
        decreases values.len() - i,
    {
        proof {
            assert(values@.take(i + 1).drop_last() =~= values@.take(i as int));
        }
        match sum.checked_add(values[i]) {
            Some(next) => {
                sum = next;
            },
            None => {
                proof {
                    lemma_total_stays_none(values@, i + 1);
                }
                return None;
            },
        }
        i += 1;
    }
    proof {
        assert(values@.take(values.len() as int) =~= values@);
    }
    Some(sum)
}

} // verus!
