//! The record parser: one logical line to its fields.
//!
//! A record is a sequence of fields, a field a sequence of choices, a choice
//! a string. Only text inside quotes is content. A comma outside quotes ends
//! a field; a semicolon ends a choice wherever it stands.

use vstd::prelude::*;
use crate::lines::{in_quotes, lemma_quote_count_concat, quote_count};

verus! {

pub type Answer = Vec<String>;

pub type Reply = Vec<Answer>;

/// A record in which nothing has been read yet: one field of one empty choice.
pub open spec fn blank_record() -> Seq<Seq<Seq<char>>> {
    seq![seq![Seq::<char>::empty()]]
}

/// What the character `c` does to the record `rec` read so far, where
/// `quoted` says whether `c` stands inside quoted text.
pub open spec fn record_step(rec: Seq<Seq<Seq<char>>>, quoted: bool, c: char) -> Seq<
    Seq<Seq<char>>,
> {
    let field = rec.last();
    if c == '"' {
        rec
    } else if c == ';' {
        rec.update(rec.len() - 1, field.push(Seq::empty()))
    } else if quoted {
        rec.update(rec.len() - 1, field.update(field.len() - 1, field.last().push(c)))
    } else if c == ',' {
        rec.push(seq![Seq::empty()])
    } else {
        rec
    }
}

/// The record that the text of one logical line stands for.
pub open spec fn record_of(line: Seq<char>) -> Seq<Seq<Seq<char>>>
    decreases line.len(),
{
    if line.len() == 0 {
        blank_record()
    } else {
        record_step(record_of(line.drop_last()), in_quotes(line.drop_last()), line.last())
    }
}

/// The scanner's state as plain values.
pub struct StateView {
    /// The choices of the current field that are complete.
    pub options: Seq<Seq<char>>,
    /// The choice that is being read.
    pub option: Seq<char>,
    /// The last character was a quote or a semicolon, which is never content.
    pub special: bool,
    /// The scanner is inside quoted text.
    pub text: bool,
    /// The last character ended a choice.
    pub next: bool,
    /// The last character ended a field.
    pub over: bool,
}

impl StateView {
    /// The state before any character.
    pub open spec fn initial() -> StateView {
        StateView {
            options: Seq::empty(),
            option: Seq::empty(),
            special: false,
            text: false,
            next: false,
            over: false,
        }
    }

    /// The state after `c` has been classified: the flags speak of `c`, the
    /// buffers are untouched.
    pub open spec fn updated(self, c: char) -> StateView {
        StateView {
            options: self.options,
            option: self.option,
            special: c == '"' || c == ';',
            text: self.text != (c == '"'),
            next: c == ';',
            over: c == ',' && !self.text,
        }
    }

    /// The state after `c`, already classified, has been consumed, and the
    /// field that this completed, if it completed one.
    pub open spec fn parsed(self, c: char) -> (StateView, Option<Seq<Seq<char>>>) {
        let option = if self.text && !self.special {
            self.option.push(c)
        } else {
            self.option
        };
        let flush = self.next || self.over;
        let options = if flush {
            self.options.push(option)
        } else {
            self.options
        };
        let option = if flush {
            Seq::empty()
        } else {
            option
        };
        if self.over {
            (StateView { options: Seq::empty(), option, ..self }, Some(options))
        } else {
            (StateView { options, option, ..self }, None)
        }
    }

    /// One transition: classify `c`, then consume it.
    pub open spec fn step(self, c: char) -> (StateView, Option<Seq<Seq<char>>>) {
        self.updated(c).parsed(c)
    }

    /// The state after the characters of `s` in turn, and the fields that
    /// they completed.
    pub open spec fn fed(self, s: Seq<char>) -> (StateView, Seq<Seq<Seq<char>>>)
        decreases s.len(),
    {
        if s.len() == 0 {
            (self, Seq::empty())
        } else {
            let (before, fields) = self.fed(s.drop_last());
            let (after, field) = before.step(s.last());
            match field {
                Some(f) => (after, fields.push(f)),
                None => (after, fields),
            }
        }
    }

    /// The field that is open: its complete choices and the one being read.
    pub open spec fn open_field(self) -> Seq<Seq<char>> {
        self.options.push(self.option)
    }
}

/// The scanner's state.
pub struct State {
    pub options: Vec<String>,
    pub option: String,
    pub special: bool,
    pub text: bool,
    pub next: bool,
    pub over: bool,
}

impl View for State {
    type V = StateView;

    open spec fn view(&self) -> StateView {
        StateView {
            options: self.options.deep_view(),
            option: self.option@,
            special: self.special,
            text: self.text,
            next: self.next,
            over: self.over,
        }
    }
}

/// The text of a field that may be absent.
pub open spec fn field_text(field: Option<Vec<String>>) -> Option<Seq<Seq<char>>> {
    match field {
        Some(f) => Some(f.deep_view()),
        None => None,
    }
}

impl State {
    pub fn new() -> (out: State)
        ensures
            out@ == StateView::initial(),
    {
        let out = State {
            options: Vec::new(),
            option: String::new(),
            special: false,
            text: false,
            next: false,
            over: false,
        };
        assert(out.options.deep_view() =~= Seq::empty());
        out
    }

    /// Classifies `c`: sets the flags for it and leaves the buffers alone.
    pub fn update(&mut self, c: char)
        ensures
            final(self)@ == old(self)@.updated(c),
    {
        if self.next {
            self.next = false;
        }
        if self.over {
            self.over = false;
        }
        if self.special {
            self.special = false;
        }
        if c == '"' {
            self.text = !self.text;
            self.special = true;
        } else if c == ',' {
            if !self.text {
                self.over = true;
            }
        } else if c == ';' {
            self.next = true;
            self.special = true;
        }
    }

    /// Consumes `c` after `update` has classified it. Returns the field that
    /// `c` completed, if it completed one.
    pub fn parse(&mut self, c: char) -> (out: Option<Vec<String>>)
        ensures
            final(self)@ == old(self)@.parsed(c).0,
            field_text(out) == old(self)@.parsed(c).1,
    {
        if self.text && !self.special {
            self.option.push(c);
        }
        if self.next || self.over {
            let mut done = String::new();
            core::mem::swap(&mut self.option, &mut done);
            let ghost before = self.options.deep_view();
            self.options.push(done);
            assert(self.options.deep_view() =~= before.push(done@));
        }
        if self.over {
            let mut field: Vec<String> = Vec::new();
            core::mem::swap(&mut self.options, &mut field);
            assert(self.options.deep_view() =~= Seq::empty());
            return Some(field);
        }
        None
    }

    /// One transition: classifies `c`, then consumes it. Returns the field
    /// that `c` completed, if it completed one.
    pub fn step(&mut self, c: char) -> (out: Option<Vec<String>>)
        ensures
            final(self)@ == old(self)@.step(c).0,
            field_text(out) == old(self)@.step(c).1,
    {
        self.update(c);
        self.parse(c)
    }

    /// Feeds the characters of `input` through the scanner, one transition
    /// each, and returns the fields that they completed.
    pub fn feed(&mut self, input: &str) -> (out: Vec<Vec<String>>)
        ensures
            final(self)@ == old(self)@.fed(input@).0,
            out.deep_view() == old(self)@.fed(input@).1,
    {
        let mut out: Vec<Vec<String>> = Vec::new();
        assert(out.deep_view() =~= Seq::empty());
        for c in it: input.chars()
            invariant
                it.seq() == input@,
                self@ == old(self)@.fed(input@.take(it.index())).0,
                out.deep_view() == old(self)@.fed(input@.take(it.index())).1,
        {
            proof {
                let i = it.index();
                assert(input@.take(i + 1).drop_last() == input@.take(i));
            }
            if let Some(field) = self.step(c) {
                let ghost before = out.deep_view();
                out.push(field);
                assert(out.deep_view() =~= before.push(field.deep_view()));
            }
        }
        proof {
            assert(input@.take(input@.len() as int) == input@);
        }
        out
    }

    /// Closes the field that is open, as a comma outside quotes would, and
    /// returns it.
    pub fn finish(self) -> (out: Vec<String>)
        ensures
            out.deep_view() == self@.open_field(),
    {
        let mut options = self.options;
        let ghost before = options.deep_view();
        options.push(self.option);
        assert(options.deep_view() =~= before.push(self.option@));
        options
    }
}

/// The number of commas of `s` that stand outside quoted text.
pub open spec fn field_break_count(s: Seq<char>) -> nat
    decreases s.len(),
{
    if s.len() == 0 {
        0
    } else {
        field_break_count(s.drop_last()) + if s.last() == ',' && !in_quotes(s.drop_last()) {
            1nat
        } else {
            0nat
        }
    }
}

/// The text of `s` that stands inside quotes, the quotes themselves left out.
pub open spec fn quoted_text(s: Seq<char>) -> Seq<char>
    decreases s.len(),
{
    if s.len() == 0 {
        Seq::empty()
    } else if s.last() != '"' && in_quotes(s.drop_last()) {
        quoted_text(s.drop_last()).push(s.last())
    } else {
        quoted_text(s.drop_last())
    }
}

/// Every quote character toggles the scanner, and nothing else does: after
/// `s` it has changed sides exactly if `s` holds an odd number of quote
/// characters. After an even number it is where it began, so a scanner that
/// starts outside quotes ends outside them.
pub proof fn lemma_quote_parity(start: StateView, s: Seq<char>)
    ensures
        start.fed(s).0.text == (start.text != (quote_count(s) % 2 == 1)),
        quote_count(s) % 2 == 0 ==> start.fed(s).0.text == start.text,
    decreases s.len(),
{
    if s.len() > 0 {
        lemma_quote_parity(start, s.drop_last());
    }
}

/// The fields that a fresh scanner has completed after `s`, followed by the
/// field that is open, are the record of `s`.
pub proof fn lemma_scan(s: Seq<char>)
    ensures
        StateView::initial().fed(s).1.push(StateView::initial().fed(s).0.open_field())
            == record_of(s),
    decreases s.len(),
{
    let (st, fields) = StateView::initial().fed(s);
    if s.len() == 0 {
        assert(fields.push(st.open_field()) =~= record_of(s));
    } else {
        lemma_scan(s.drop_last());
        lemma_quote_parity(StateView::initial(), s.drop_last());
        let (before, done) = StateView::initial().fed(s.drop_last());
        let rec = record_of(s.drop_last());
        assert(rec.len() == done.len() + 1);
        assert(rec.last() == before.open_field());
        assert(rec.drop_last() =~= done);
        assert(before.open_field().last() == before.option);
        assert(before.open_field().drop_last() =~= before.options);
        assert(fields.push(st.open_field()) =~~= record_of(s));
    }
}

/// A record has one field more than its line has commas outside quoted text,
/// and every field has at least one choice.
pub proof fn lemma_record_shape(s: Seq<char>)
    ensures
        record_of(s).len() == field_break_count(s) + 1,
        forall|k: int| 0 <= k < record_of(s).len() ==> (#[trigger] record_of(s)[k]).len() >= 1,
    decreases s.len(),
{
    if s.len() > 0 {
        lemma_record_shape(s.drop_last());
    }
}

/// Fields are read one by one: where a comma stands outside quoted text, the
/// record of the whole is the record of what stands before the comma,
/// followed by the record of what stands after it.
pub proof fn lemma_record_concat(a: Seq<char>, b: Seq<char>)
    requires
        !in_quotes(a),
    ensures
        record_of(a + seq![','] + b) == record_of(a) + record_of(b),
    decreases b.len(),
{
    let head = a + seq![','];
    let all = head + b;
    lemma_record_shape(b);
    if b.len() == 0 {
        assert(all =~= head);
        assert(head.drop_last() =~= a);
        assert(record_of(all) =~= record_of(a) + record_of(b));
    } else {
        lemma_record_concat(a, b.drop_last());
        lemma_record_shape(b.drop_last());
        lemma_quote_count_concat(a, seq![',']);
        lemma_quote_count_concat(head, b.drop_last());
        assert(quote_count(seq![',']) == 0) by {
            assert(seq![','].drop_last() =~= Seq::<char>::empty());
            assert(quote_count(Seq::<char>::empty()) == 0);
        }
        assert(all.drop_last() =~= head + b.drop_last());
        assert(in_quotes(all.drop_last()) == in_quotes(b.drop_last()));
        assert(record_of(all) =~~= record_of(a) + record_of(b));
    }
}

/// A cell without a semicolon is one field of one choice: its quoted text.
pub proof fn lemma_single_choice(cell: Seq<char>)
    requires
        field_break_count(cell) == 0,
        forall|i: int| 0 <= i < cell.len() ==> cell[i] != ';',
    ensures
        record_of(cell) == seq![seq![quoted_text(cell)]],
    decreases cell.len(),
{
    if cell.len() > 0 {
        lemma_single_choice(cell.drop_last());
    }
    assert(record_of(cell) =~~= seq![seq![quoted_text(cell)]]);
}

/// The quoted text of `"` `text` `"` is `text`, character for character,
/// whenever `text` itself holds no quote.
pub proof fn lemma_quoted_verbatim(text: Seq<char>)
    requires
        forall|i: int| 0 <= i < text.len() ==> text[i] != '"',
    ensures
        quote_count(seq!['"'] + text) == 1,
        field_break_count(seq!['"'] + text) == 0,
        quoted_text(seq!['"'] + text) == text,
        field_break_count(seq!['"'] + text + seq!['"']) == 0,
        quoted_text(seq!['"'] + text + seq!['"']) == text,
    decreases text.len(),
{
    let open = seq!['"'] + text;
    let all = open + seq!['"'];
    if text.len() == 0 {
        let none = Seq::<char>::empty();
        assert(open.drop_last() =~= none);
        assert(quote_count(none) == 0);
        assert(field_break_count(none) == 0);
        assert(quoted_text(none) =~= text);
    } else {
        lemma_quoted_verbatim(text.drop_last());
        assert(open.drop_last() =~= seq!['"'] + text.drop_last());
        assert(open.last() == text.last());
        assert(text.drop_last().push(text.last()) =~= text);
    }
    assert(all.drop_last() =~= open);
    assert(all.last() == '"');
    assert(field_break_count(open) == 0);
    assert(field_break_count(all) == field_break_count(all.drop_last()));
    assert(quoted_text(all) == quoted_text(all.drop_last()));
}

/// A quoted cell whose text holds neither a quote nor a semicolon is one
/// field of one choice, and that choice is the text verbatim.
pub proof fn lemma_quoted_cell(text: Seq<char>)
    requires
        forall|i: int| 0 <= i < text.len() ==> text[i] != '"' && text[i] != ';',
    ensures
        record_of(seq!['"'] + text + seq!['"']) == seq![seq![text]],
{
    lemma_quoted_verbatim(text);
    lemma_single_choice(seq!['"'] + text + seq!['"']);
}

/// Parses the text of one logical line into its record.
pub fn parse_line(input: &str) -> (line: Reply)
    ensures
        line.deep_view() == record_of(input@),
        line.len() >= 1,
        forall|k: int| 0 <= k < line.len() ==> (#[trigger] line[k]).len() >= 1,
{
    let mut state = State::new();
    let mut line = state.feed(input);
    let ghost fields = line.deep_view();
    let ghost open = state@.open_field();
    let last = state.finish();
    line.push(last);
    proof {
        lemma_scan(input@);
        lemma_record_shape(input@);
        assert(line.deep_view() =~= fields.push(open));
        assert forall|k: int| 0 <= k < line.len() implies (#[trigger] line[k]).len() >= 1 by {
            assert(line.deep_view()[k] == line[k].deep_view());
        }
    }
    line
}

} // verus!
