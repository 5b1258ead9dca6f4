//! The answer table: the labels of the header line and the replies of the
//! lines after it, every reply with as many fields as there are labels.

use vstd::prelude::*;
use crate::lines::{lemma_line_count, lines_of, split_lines};
use crate::record::{parse_line, record_of, Reply};
use crate::text::{contains, occurs_in, same_text};

verus! {

/// Why no table could be built.
#[derive(Clone, Copy, Debug, PartialEq, Eq, Structural)]
pub enum ParseError {
    /// The input holds no header line.
    EmptyInput,
    /// Some reply has more or fewer fields than the header.
    FieldCountMismatch,
}

impl ParseError {
    /// The error in words.
    pub fn message(&self) -> (out: &'static str)
        ensures
            out@ == match *self {
                ParseError::EmptyInput => "first line missing"@,
                ParseError::FieldCountMismatch => "replies are not the same size as labels"@,
            },
    {
        match self {
            ParseError::EmptyInput => "first line missing",
            ParseError::FieldCountMismatch => "replies are not the same size as labels",
        }
    }
}

/// The label that a field of the header line stands for: its first choice.
pub open spec fn label_of(field: Seq<Seq<char>>) -> Seq<char> {
    if field.len() > 0 {
        field[0]
    } else {
        Seq::empty()
    }
}

/// The labels of a file: one for each field of its first line.
pub open spec fn labels_of(file: Seq<char>) -> Seq<Seq<char>> {
    record_of(lines_of(file)[0]).map_values(|field: Seq<Seq<char>>| label_of(field))
}

/// The replies of a file: the records of its lines after the first.
pub open spec fn replies_of(file: Seq<char>) -> Seq<Seq<Seq<Seq<char>>>> {
    lines_of(file).skip(1).map_values(|line: Seq<char>| record_of(line))
}

/// A table as plain values.
pub struct Table {
    pub labels: Seq<Seq<char>>,
    pub replies: Seq<Seq<Seq<Seq<char>>>>,
}

impl Table {
    /// Every reply has one field for each label.
    pub open spec fn consistent(self) -> bool {
        forall|i: int| 0 <= i < self.replies.len() ==> (#[trigger] self.replies[i]).len() == self.labels.len()
    }

    /// The table that the text of a file stands for.
    pub open spec fn of(file: Seq<char>) -> Table {
        Table { labels: labels_of(file), replies: replies_of(file) }
    }

    /// The choices given under label `index`: those of the first reply in
    /// their order, then those of the second, and so on.
    pub open spec fn choices(self, index: int) -> Seq<Seq<char>> {
        self.replies.map_values(|reply: Seq<Seq<Seq<char>>>| reply[index]).flatten()
    }

    /// Label `index`, followed by the choices given under it.
    pub open spec fn answer(self, index: int) -> Seq<Seq<char>> {
        seq![self.labels[index]] + self.choices(index)
    }

    /// Whether `index` is the first label of which `wanted` holds.
    pub open spec fn is_first(self, wanted: spec_fn(Seq<char>) -> bool, index: int) -> bool {
        &&& 0 <= index < self.labels.len()
        &&& wanted(self.labels[index])
        &&& forall|j: int| 0 <= j < index ==> !wanted(#[trigger] self.labels[j])
    }

    /// Whether `wanted` holds of no label.
    pub open spec fn has_none(self, wanted: spec_fn(Seq<char>) -> bool) -> bool {
        forall|j: int| 0 <= j < self.labels.len() ==> !wanted(#[trigger] self.labels[j])
    }
}

/// Reads the labels and the replies of `file`, without comparing their sizes.
pub fn parse(file: &str) -> (res: Result<(Vec<String>, Vec<Reply>), ParseError>)
    ensures
        match res {
            Ok((labels, replies)) => {
                &&& file@.len() > 0
                &&& labels.deep_view() == labels_of(file@)
                &&& replies.deep_view() == replies_of(file@)
            },
            Err(e) => e == ParseError::EmptyInput && file@.len() == 0,
        },
{
    if file.is_empty() {
        return Err(ParseError::EmptyInput);
    }
    let lines = split_lines(file);
    proof {
        lemma_line_count(file@);
    }
    let header = parse_line(lines[0].as_str());
    let mut labels: Vec<String> = Vec::new();
    let mut k: usize = 0;
    while k < header.len()
        invariant
            k <= header.len(),
            header.deep_view() == record_of(lines_of(file@)[0]),
            labels.deep_view() == labels_of(file@).take(k as int),
        decreases header.len() - k,
    {
        let field = &header[k];
        let label = if field.len() > 0 {
            field[0].clone()
        } else {
            String::new()
        };
        proof {
            assert(header.deep_view()[k as int] == field.deep_view());
            assert(field.len() > 0 ==> field.deep_view()[0] == field[0]@);
        }
        let ghost before = labels.deep_view();
        labels.push(label);
        assert(labels.deep_view() =~= before.push(label@));
        assert(labels.deep_view() =~= labels_of(file@).take(k + 1));
        k += 1;
    }
    assert(labels.deep_view() =~= labels_of(file@));
    let mut replies: Vec<Reply> = Vec::new();
    let mut i: usize = 1;
    assert(replies.deep_view() =~= replies_of(file@).take(0));
    while i < lines.len()
        invariant
            1 <= i <= lines.len(),
            lines.deep_view() == lines_of(file@),
            replies.deep_view() == replies_of(file@).take(i - 1),
        decreases lines.len() - i,
    {
        let reply = parse_line(lines[i].as_str());
        proof {
            assert(lines.deep_view()[i as int] == lines[i as int]@);
        }
        let ghost before = replies.deep_view();
        replies.push(reply);
        assert(replies.deep_view() =~= before.push(reply.deep_view()));
        assert(replies.deep_view() =~= replies_of(file@).take(i as int));
        i += 1;
    }
    assert(replies.deep_view() =~= replies_of(file@));
    Ok((labels, replies))
}

/// The answer table.
#[derive(PartialEq, Debug)]
pub struct Answers {
    labels: Vec<String>,
    replies: Vec<Reply>,
}

impl View for Answers {
    type V = Table;

    closed spec fn view(&self) -> Table {
        Table { labels: self.labels.deep_view(), replies: self.replies.deep_view() }
    }
}

impl Answers {
    #[verifier::type_invariant]
    spec fn sizes_agree(self) -> bool {
        self@.consistent()
    }

    /// Builds the table of `file`, or says why there is none: the input is
    /// empty and so has no header line, or some reply differs from the header
    /// in its number of fields.
    pub fn parse(file: &str) -> (res: Result<Answers, ParseError>)
        ensures
            match res {
                Ok(table) => {
                    &&& file@.len() > 0
                    &&& table@ == Table::of(file@)
                    &&& table@.consistent()
                },
                Err(ParseError::EmptyInput) => file@.len() == 0,
                Err(ParseError::FieldCountMismatch) => {
                    &&& file@.len() > 0
                    &&& !Table::of(file@).consistent()
                },
            },
    {
        let (labels, replies) = match self::parse(file) {
            Ok(read) => read,
            Err(e) => {
                return Err(e);
            },
        };
        let mut i: usize = 0;
        while i < replies.len()
            invariant
                i <= replies.len(),
                file@.len() > 0,
                labels.deep_view() == labels_of(file@),
                replies.deep_view() == replies_of(file@),
                forall|j: int| 0 <= j < i ==> (#[trigger] replies_of(file@)[j]).len() == labels_of(file@).len(),
            decreases replies.len() - i,
        {
            proof {
                assert(replies.deep_view()[i as int] == replies[i as int].deep_view());
            }
            if replies[i].len() != labels.len() {
                assert(Table::of(file@).replies[i as int].len() != Table::of(file@).labels.len());
                return Err(ParseError::FieldCountMismatch);
            }
            i += 1;
        }
        Ok(Answers { labels, replies })
    }

    /// The labels, in the order of the header line.
    pub fn labels(&self) -> (out: &Vec<String>)
        ensures
            out.deep_view() == self@.labels,
    {
        &self.labels
    }

    /// The replies, in the order of their lines, each as long as the labels.
    pub fn replies(&self) -> (out: &Vec<Reply>)
        ensures
            out.deep_view() == self@.replies,
            self@.consistent(),
    {
        proof {
            use_type_invariant(self);
        }
        &self.replies
    }

    /// Reply `index`, if there are that many.
    pub fn reply(&self, index: usize) -> (out: Option<&Reply>)
        ensures
            match out {
                Some(reply) => index < self@.replies.len() && reply.deep_view()
                    == self@.replies[index as int] && reply.len() == self@.labels.len(),
                None => index >= self@.replies.len(),
            },
    {
        proof {
            use_type_invariant(self);
        }
        if index < self.replies.len() {
            assert(self@.replies[index as int] == self.replies[index as int].deep_view());
            Some(&self.replies[index])
        } else {
            None
        }
    }

    /// The label whose text contains `name` and comes first, followed by the
    /// choices given under it; `None` if no label contains `name`.
    pub fn question(&self, name: &str) -> (out: Option<Vec<&str>>)
        ensures
            match out {
                Some(found) => exists|i: int|
                    self@.is_first(|label: Seq<char>| occurs_in(name@, label), i)
                        && found.deep_view() == #[trigger] self@.answer(i),
                None => self@.has_none(|label: Seq<char>| occurs_in(name@, label)),
            },
    {
        let ghost wanted = |label: Seq<char>| occurs_in(name@, label);
        let test = |label: &str| -> (yes: bool)
            ensures
                yes == wanted(label@),
            { contains(label, name) };
        match self.label(test, Ghost(wanted)) {
            Some(index) => Some(self.collect(index)),
            None => None,
        }
    }

    /// The label whose text is `name` and comes first, followed by the
    /// choices given under it; `None` if no label is `name`.
    pub fn question_exact(&self, name: &str) -> (out: Option<Vec<&str>>)
        ensures
            match out {
                Some(found) => exists|i: int|
                    self@.is_first(|label: Seq<char>| label == name@, i) && found.deep_view()
                        == #[trigger] self@.answer(i),
                None => self@.has_none(|label: Seq<char>| label == name@),
            },
    {
        let ghost wanted = |label: Seq<char>| label == name@;
        let test = |label: &str| -> (yes: bool)
            ensures
                yes == wanted(label@),
            { same_text(label, name) };
        match self.label(test, Ghost(wanted)) {
            Some(index) => Some(self.collect(index)),
            None => None,
        }
    }

    /// Label `index`, followed by the choices given under it.
    fn collect(&self, index: usize) -> (out: Vec<&str>)
        requires
            index < self@.labels.len(),
        ensures
            out.deep_view() == self@.answer(index as int),
    {
        proof {
            use_type_invariant(self);
        }
        let mut out: Vec<&str> = Vec::new();
        out.push(self.labels[index].as_str());
        assert(out.deep_view() =~= seq![self@.labels[index as int]]);
        let ghost column = self@.replies.map_values(|reply: Seq<Seq<Seq<char>>>| reply[index as int]);
        let mut i: usize = 0;
        assert(column.take(0) =~= Seq::empty());
        while i < self.replies.len()
            invariant
                i <= self.replies.len(),
                index < self@.labels.len(),
                self@.consistent(),
                column == self@.replies.map_values(|reply: Seq<Seq<Seq<char>>>| reply[index as int]),
                out.deep_view() == seq![self@.labels[index as int]] + column.take(i as int).flatten(),
            decreases self.replies.len() - i,
        {
            let reply = &self.replies[i];
            assert(self@.replies[i as int] == reply.deep_view());
            let field = &reply[index];
            assert(field.deep_view() == column[i as int]);
            let ghost start = out.deep_view();
            let mut j: usize = 0;
            while j < field.len()
                invariant
                    j <= field.len(),
                    out.deep_view() == start + field.deep_view().take(j as int),
                decreases field.len() - j,
            {
                let ghost before = out.deep_view();
                out.push(field[j].as_str());
                assert(out.deep_view() =~= before.push(field[j as int]@));
                assert(out.deep_view() =~= start + field.deep_view().take(j + 1));
                j += 1;
            }
            proof {
                assert(field.deep_view().take(field.len() as int) == field.deep_view());
                assert(column.take(i + 1) == column.take(i as int).push(column[i as int]));
                column.take(i as int).lemma_flatten_push(column[i as int]);
                assert(out.deep_view() =~= seq![self@.labels[index as int]] + column.take(
                    i + 1,
                ).flatten());
            }
            i += 1;
        }
        assert(column.take(self.replies.len() as int) == column);
        out
    }

    /// The index of the first label that `test` accepts, where `test` decides
    /// `wanted`.
    fn label<F: Fn(&str) -> bool>(&self, test: F, Ghost(wanted): Ghost<
        spec_fn(Seq<char>) -> bool,
    >) -> (out: Option<usize>)
        requires
            forall|label: &str| #[trigger] test.requires((label,)),
            forall|label: &str, yes: bool|
                #[trigger] test.ensures((label,), yes) ==> yes == wanted(label@),
        ensures
            match out {
                Some(index) => self@.is_first(wanted, index as int),
                None => self@.has_none(wanted),
            },
    {
        let mut index: usize = 0;
        while index < self.labels.len()
            invariant
                index <= self.labels.len(),
                forall|label: &str| #[trigger] test.requires((label,)),
                forall|label: &str, yes: bool|
                    #[trigger] test.ensures((label,), yes) ==> yes == wanted(label@),
                forall|j: int| 0 <= j < index ==> !wanted(#[trigger] self@.labels[j]),
            decreases self.labels.len() - index,
        {
            assert(self@.labels[index as int] == self.labels[index as int]@);
            if test(self.labels[index].as_str()) {
                return Some(index);
            }
            index += 1;
        }
        None
    }
}

} // verus!
