//! Clipboard history in three modes: a stack, a queue, and a text whose
//! numbers go up by one with every paste.

use std::collections::VecDeque;
use vstd::prelude::*;
use crate::text::{chars_of, string_from_chars, token_views};

verus! {

/// How copied texts are kept and handed back.
#[derive(Debug, Copy, Clone, PartialEq, Eq, Structural)]
pub enum ClipboardMode {
    /// The text copied last is pasted first.
    Stack,
    /// The text copied first is pasted first.
    Queue,
    /// One text is kept; every paste hands it back with its numbers
    /// increased by one.
    Increment,
}

/// The name of a mode.
pub open spec fn mode_name(mode: ClipboardMode) -> Seq<char> {
    match mode {
        ClipboardMode::Stack => "stack"@,
        ClipboardMode::Queue => "queue"@,
        ClipboardMode::Increment => "increment"@,
    }
}

impl ClipboardMode {
    /// The name of the mode in lower case.
    pub fn as_str(self) -> (name: &'static str)
        ensures
            name@ == mode_name(self),
    {
        match self {
            ClipboardMode::Stack => "stack",
            ClipboardMode::Queue => "queue",
            ClipboardMode::Increment => "increment",
        }
    }
}

/// Whether `c` is one of the digits `0` to `9`.
pub open spec fn is_digit(c: char) -> bool {
    '0' <= c && c <= '9'
}

/// The value of a digit.
pub open spec fn digit_value(c: char) -> nat {
    (c as int - '0' as int) as nat
}

/// The digit that stands for `d`.
pub open spec fn digit_char(d: nat) -> char {
    if d == 0 {
        '0'
    } else if d == 1 {
        '1'
    } else if d == 2 {
        '2'
    } else if d == 3 {
        '3'
    } else if d == 4 {
        '4'
    } else if d == 5 {
        '5'
    } else if d == 6 {
        '6'
    } else if d == 7 {
        '7'
    } else if d == 8 {
        '8'
    } else {
        '9'
    }
}

/// The number that a run of digits denotes.
pub open spec fn digits_value(digits: Seq<char>) -> nat
    decreases digits.len(),
{
    if digits.len() == 0 {
        0
    } else {
        digits_value(digits.drop_last()) * 10 + digit_value(digits.last())
    }
}

/// The decimal digits of `n`, without leading zeros.
pub open spec fn decimal(n: nat) -> Seq<char>
    decreases n,
{
    if n < 10 {
        seq![digit_char(n)]
    } else {
        decimal(n / 10).push(digit_char(n % 10))
    }
}

/// `digits` with zeros in front until it is `width` long.
pub open spec fn zero_padded(digits: Seq<char>, width: nat) -> Seq<char> {
    if digits.len() >= width {
        digits
    } else {
        Seq::new((width - digits.len()) as nat, |i: int| '0') + digits
    }
}

/// What becomes of a run of digits: the number it denotes plus one, padded
/// with zeros to the length of the run. A run whose successor does not fit
/// in 64 bits stays as it is.
pub open spec fn incremented_run(run: Seq<char>) -> Seq<char> {
    if digits_value(run) < u64::MAX {
        zero_padded(decimal(digits_value(run) + 1), run.len())
    } else {
        run
    }
}

/// Length of the run of digits at the start of `text`.
pub open spec fn run_length(text: Seq<char>) -> nat
    decreases text.len(),
{
    if text.len() > 0 && is_digit(text[0]) {
        1 + run_length(text.drop_first())
    } else {
        0
    }
}

/// `text` with every maximal run of digits incremented.
pub open spec fn increment_spec(text: Seq<char>) -> Seq<char>
    decreases text.len(),
{
    if text.len() == 0 {
        Seq::empty()
    } else if !is_digit(text[0]) {
        seq![text[0]] + increment_spec(text.drop_first())
    } else {
        let n = run_length(text);
        if 0 < n <= text.len() {
            incremented_run(text.take(n as int)) + increment_spec(text.skip(n as int))
        } else {
            Seq::empty()
        }
    }
}

/// A stretch of digits that ends at the end of the text or before a
/// character that is no digit is the run at the start of the text.
pub proof fn lemma_run_length(text: Seq<char>, n: nat)
    requires
        n <= text.len(),
        forall|k: int| 0 <= k < n ==> is_digit(#[trigger] text[k]),
        n == text.len() || !is_digit(text[n as int]),
    ensures
        run_length(text) == n,
    decreases n,
{
    if n > 0 {
        let rest = text.drop_first();
        assert forall|k: int| 0 <= k < n - 1 implies is_digit(#[trigger] rest[k]) by {
            assert(rest[k] == text[k + 1]);
        }
        if n < text.len() {
            assert(rest[n - 1] == text[n as int]);
        }
        lemma_run_length(rest, (n - 1) as nat);
    }
}

/// A run of digits denotes at least what any of its beginnings denotes.
pub proof fn lemma_digits_value_grows(digits: Seq<char>, k: int)
    requires
        0 <= k <= digits.len(),
    ensures
        digits_value(digits.take(k)) <= digits_value(digits),
    decreases digits.len(),
{
    if k == digits.len() {
        assert(digits.take(k) =~= digits);
    } else {
        lemma_digits_value_grows(digits.drop_last(), k);
        assert(digits.drop_last().take(k) =~= digits.take(k));
    }
}

/// Whether `c` is a digit.
fn is_ascii_digit(c: char) -> (r: bool)
    ensures
        r == is_digit(c),
{
    c >= '0' && c <= '9'
}

/// The value of the digit `c`.
fn value_of_digit(c: char) -> (d: u64)
    requires
        is_digit(c),
    ensures
        d == digit_value(c),
        d <= 9,
{
    ((c as u32) - ('0' as u32)) as u64
}

/// The digit for `d`.
fn char_of_digit(d: u64) -> (c: char)
    requires
        d <= 9,
    ensures
        c == digit_char(d as nat),
{
    if d == 0 {
        '0'
    } else if d == 1 {
        '1'
    } else if d == 2 {
        '2'
    } else if d == 3 {
        '3'
    } else if d == 4 {
        '4'
    } else if d == 5 {
        '5'
    } else if d == 6 {
        '6'
    } else if d == 7 {
        '7'
    } else if d == 8 {
        '8'
    } else {
        '9'
    }
}

/// The number that the digits `chars[start..end]` denote, if it fits in 64
/// bits.
fn parse_run(chars: &Vec<char>, start: usize, end: usize) -> (value: Option<u64>)
    requires
        start <= end <= chars.len(),
        forall|k: int| start <= k < end ==> is_digit(#[trigger] chars[k]),
    ensures
        match value {
            Some(v) => v == digits_value(chars@.subrange(start as int, end as int)),
            None => digits_value(chars@.subrange(start as int, end as int)) > u64::MAX,
        },
{
    let ghost run = chars@.subrange(start as int, end as int);
    let mut acc: u64 = 0;
    let mut k: usize = start;
    while k < end
        invariant
            start <= k <= end <= chars.len(),
            run == chars@.subrange(start as int, end as int),
            forall|j: int| start <= j < end ==> is_digit(#[trigger] chars[j]),
            acc == digits_value(run.take(k - start)),
        decreases end - k,
    {
        let d: u64 = value_of_digit(chars[k]);
        proof {
            let upto = run.take(k - start + 1);
            assert(upto.drop_last() =~= run.take(k - start));
            assert(upto.last() == chars[k as int]);
            lemma_digits_value_grows(run, k - start + 1);
        }
        let scaled: u64 = match acc.checked_mul(10) {
            Some(x) => x,
            None => {
                return None;
            },
        };
        acc = match scaled.checked_add(d) {
            Some(x) => x,
            None => {
                return None;
            },
        };
        k = k + 1;
    }
    assert(run.take(end - start) =~= run);
    Some(acc)
}

/// The decimal digits of `n`.
fn render_decimal(n: u64) -> (digits: Vec<char>)
    ensures
        digits@ == decimal(n as nat),
{
    let mut digits: Vec<char> = Vec::new();
    let mut rest: u64 = n;
    while rest >= 10
        invariant
            decimal(n as nat) == decimal(rest as nat) + digits@,
        decreases rest,
    {
        let ghost tail = digits@;
        let c: char = char_of_digit(rest % 10);
        digits.insert(0, c);
        proof {
            assert(decimal(rest as nat) == decimal((rest / 10) as nat).push(c));
            assert(decimal((rest / 10) as nat).push(c) + tail =~= decimal((rest / 10) as nat)
                + digits@);
        }
        rest = rest / 10;
    }
    let ghost tail = digits@;
    let c: char = char_of_digit(rest);
    digits.insert(0, c);
    assert(digits@ =~= seq![c] + tail);
    digits
}

/// `text` with every number in it increased by one. A number is a maximal
/// run of digits; the result has at least as many digits as the run, with
/// zeros in front where needed. A run whose successor does not fit in 64
/// bits is left as it is.
pub fn increment_numbers(text: &str) -> (output: String)
    ensures
        output@ == increment_spec(text@),
{
    let chars = chars_of(text);
    let mut output: Vec<char> = Vec::new();
    let mut i: usize = 0;
    assert(chars@.skip(0) =~= chars@);
    while i < chars.len()
        invariant
            i <= chars.len(),
            output@ + increment_spec(chars@.skip(i as int)) == increment_spec(chars@),
        decreases chars.len() - i,
    {
        let c: char = chars[i];
        let ghost rest = chars@.skip(i as int);
        let ghost done = output@;
        assert(rest[0] == c);
        if is_ascii_digit(c) {
            let mut j: usize = i + 1;
            while j < chars.len() && is_ascii_digit(chars[j])
                invariant
                    i < j <= chars.len(),
                    forall|k: int| i <= k < j ==> is_digit(#[trigger] chars[k]),
                decreases chars.len() - j,
            {
                j = j + 1;
            }
            let width: usize = j - i;
            let ghost run = chars@.subrange(i as int, j as int);
            proof {
                assert forall|k: int| 0 <= k < width implies is_digit(#[trigger] rest[k]) by {
                    assert(rest[k] == chars[i + k]);
                }
                if j < chars.len() {
                    assert(rest[width as int] == chars[j as int]);
                }
                lemma_run_length(rest, width as nat);
                assert(rest.take(width as int) =~= run);
                assert(rest.skip(width as int) =~= chars@.skip(j as int));
            }
            let successor: Option<u64> = match parse_run(&chars, i, j) {
                Some(v) => if v < u64::MAX {
                    Some(v + 1)
                } else {
                    None
                },
                None => None,
            };
            match successor {
                Some(next) => {
                    let rendered = render_decimal(next);
                    let mut pad: usize = if rendered.len() < width {
                        width - rendered.len()
                    } else {
                        0
                    };
                    let ghost zeros = pad;
                    while pad > 0
                        invariant
                            pad <= zeros,
                            output@ == done + Seq::new((zeros - pad) as nat, |k: int| '0'),
                        decreases pad,
                    {
                        output.push('0');
                        pad = pad - 1;
                        assert(output@ =~= done + Seq::new((zeros - pad) as nat, |k: int| '0'));
                    }
                    let ghost padded = output@;
                    let mut t: usize = 0;
                    while t < rendered.len()
                        invariant
                            t <= rendered.len(),
                            output@ == padded + rendered@.take(t as int),
                        decreases rendered.len() - t,
                    {
                        output.push(rendered[t]);
                        assert(rendered@.take(t + 1) =~= rendered@.take(t as int).push(
                            rendered[t as int],
                        ));
                        assert(output@ =~= padded + rendered@.take(t + 1));
                        t = t + 1;
                    }
                    proof {
                        assert(rendered@.take(rendered.len() as int) =~= rendered@);
                        assert(output@ =~= done + incremented_run(run));
                    }
                },
                None => {
                    let mut t: usize = i;
                    while t < j
                        invariant
                            i <= t <= j <= chars.len(),
                            output@ == done + chars@.subrange(i as int, t as int),
                        decreases j - t,
                    {
                        output.push(chars[t]);
                        assert(output@ =~= done + chars@.subrange(i as int, t + 1));
                        t = t + 1;
                    }
                    assert(output@ =~= done + incremented_run(run));
                },
            }
            proof {
                assert(increment_spec(rest) == incremented_run(run) + increment_spec(
                    chars@.skip(j as int),
                ));
                assert(output@ + increment_spec(chars@.skip(j as int)) =~= done + increment_spec(
                    rest,
                ));
            }
            i = j;
        } else {
            output.push(c);
            proof {
                assert(rest.drop_first() =~= chars@.skip(i + 1));
                assert(output@ + increment_spec(chars@.skip(i + 1)) =~= done + increment_spec(
                    rest,
                ));
            }
            i = i + 1;
        }
    }
    proof {
        assert(chars@.skip(chars.len() as int) =~= Seq::<char>::empty());
        assert(output@ + Seq::<char>::empty() =~= output@);
    }
    string_from_chars(&output)
}

/// The last `limit` items of `items`, or all of them if there are fewer.
pub open spec fn keep_last(items: Seq<Seq<char>>, limit: nat) -> Seq<Seq<char>> {
    if items.len() > limit {
        items.subrange(items.len() - limit, items.len() as int)
    } else {
        items
    }
}

/// A clipboard history as a mathematical value.
pub struct HistoryModel {
    /// The stack; the text copied last is at the end.
    pub stack: Seq<Seq<char>>,
    /// The queue; the text copied first is at the front.
    pub queue: Seq<Seq<char>>,
    /// The text kept in increment mode.
    pub increment_text: Option<Seq<char>>,
    /// Most texts that the stack or the queue holds.
    pub max_items: nat,
}

/// The history after `text` was copied in mode `mode`. In stack and queue
/// mode the text goes to the end of the stack or queue, and the oldest texts
/// leave if there are more than the history holds. In increment mode it
/// replaces the kept text.
pub open spec fn after_copy(history: HistoryModel, text: Seq<char>, mode: ClipboardMode) -> HistoryModel {
    match mode {
        ClipboardMode::Stack => HistoryModel {
            stack: keep_last(history.stack.push(text), history.max_items),
            ..history
        },
        ClipboardMode::Queue => HistoryModel {
            queue: keep_last(history.queue.push(text), history.max_items),
            ..history
        },
        ClipboardMode::Increment => HistoryModel { increment_text: Some(text), ..history },
    }
}

/// The text that a paste in mode `mode` hands back: the last of the stack,
/// the first of the queue, or the kept text with its numbers increased.
pub open spec fn paste_of(history: HistoryModel, mode: ClipboardMode) -> Option<Seq<char>> {
    match mode {
        ClipboardMode::Stack => if history.stack.len() > 0 {
            Some(history.stack.last())
        } else {
            None
        },
        ClipboardMode::Queue => if history.queue.len() > 0 {
            Some(history.queue.first())
        } else {
            None
        },
        ClipboardMode::Increment => match history.increment_text {
            Some(current) => Some(increment_spec(current)),
            None => None,
        },
    }
}

/// The history after a paste in mode `mode`: the pasted text has left the
/// stack or queue, or the kept text is the text that was pasted.
pub open spec fn after_paste(history: HistoryModel, mode: ClipboardMode) -> HistoryModel {
    match mode {
        ClipboardMode::Stack => if history.stack.len() > 0 {
            HistoryModel { stack: history.stack.drop_last(), ..history }
        } else {
            history
        },
        ClipboardMode::Queue => if history.queue.len() > 0 {
            HistoryModel { queue: history.queue.drop_first(), ..history }
        } else {
            history
        },
        ClipboardMode::Increment => match history.increment_text {
            Some(current) => HistoryModel {
                increment_text: Some(increment_spec(current)),
                ..history
            },
            None => history,
        },
    }
}

/// A copy never leaves more texts on the stack or in the queue than the
/// history holds, and a paste never adds one.
pub proof fn lemma_history_stays_bounded(history: HistoryModel, text: Seq<char>, mode: ClipboardMode)
    requires
        history.stack.len() <= history.max_items,
        history.queue.len() <= history.max_items,
    ensures
        after_copy(history, text, mode).stack.len() <= history.max_items,
        after_copy(history, text, mode).queue.len() <= history.max_items,
        after_copy(history, text, mode).max_items == history.max_items,
        after_paste(history, mode).stack.len() <= history.stack.len(),
        after_paste(history, mode).queue.len() <= history.queue.len(),
        after_paste(history, mode).max_items == history.max_items,
{
}

/// What is copied last onto the stack is pasted first, and leaves the stack
/// as it was before the copy, if the stack was not full.
pub proof fn lemma_stack_pastes_last_copy(history: HistoryModel, text: Seq<char>)
    requires
        history.max_items >= 1,
    ensures
        paste_of(after_copy(history, text, ClipboardMode::Stack), ClipboardMode::Stack) == Some(
            text,
        ),
        history.stack.len() < history.max_items ==> after_paste(
            after_copy(history, text, ClipboardMode::Stack),
            ClipboardMode::Stack,
        ) == history,
{
    let pushed = history.stack.push(text);
    let kept = keep_last(pushed, history.max_items);
    assert(kept.len() > 0);
    assert(kept.last() == text);
    if history.stack.len() < history.max_items {
        assert(kept.drop_last() =~= history.stack);
    }
}

/// What is copied first into the queue is pasted first.
pub proof fn lemma_queue_pastes_first_copy(history: HistoryModel, text: Seq<char>)
    requires
        0 < history.queue.len() < history.max_items,
    ensures
        paste_of(after_copy(history, text, ClipboardMode::Queue), ClipboardMode::Queue) == Some(
            history.queue.first(),
        ),
{
}

/// What was copied, kept by mode.
pub struct ClipboardHistory {
    stack: Vec<String>,
    queue: VecDeque<String>,
    increment_text: Option<String>,
    max_items: usize,
}

impl View for ClipboardHistory {
    type V = HistoryModel;

    closed spec fn view(&self) -> HistoryModel {
        HistoryModel {
            stack: token_views(self.stack@),
            queue: token_views(self.queue@),
            increment_text: match self.increment_text {
                Some(text) => Some(text@),
                None => None,
            },
            max_items: self.max_items as nat,
        }
    }
}

/// The value of an optional string.
pub open spec fn text_view(text: Option<String>) -> Option<Seq<char>> {
    match text {
        Some(t) => Some(t@),
        None => None,
    }
}

/// The value of an optional string slice.
pub open spec fn slice_view(text: Option<&str>) -> Option<Seq<char>> {
    match text {
        Some(t) => Some(t@),
        None => None,
    }
}

impl ClipboardHistory {
    /// An empty history whose stack and queue hold at most `max_items`
    /// texts each, and at most one if `max_items` is zero.
    pub fn new(max_items: usize) -> (history: ClipboardHistory)
        ensures
            history@ == (HistoryModel {
                stack: Seq::empty(),
                queue: Seq::empty(),
                increment_text: None,
                max_items: if max_items >= 1 {
                    max_items as nat
                } else {
                    1
                },
            }),
    {
        let history = ClipboardHistory {
            stack: Vec::new(),
            queue: VecDeque::new(),
            increment_text: None,
            max_items: if max_items >= 1 {
                max_items
            } else {
                1
            },
        };
        assert(token_views(history.stack@) =~= Seq::<Seq<char>>::empty());
        assert(token_views(history.queue@) =~= Seq::<Seq<char>>::empty());
        history
    }

    /// Records a copied text. In stack and queue mode it goes to the end of
    /// the stack or queue, and the oldest texts leave if there are more than
    /// the history holds. In increment mode it replaces the kept text.
    pub fn record_copy(&mut self, text: &str, mode: ClipboardMode)
        ensures
            final(self)@ == after_copy(old(self)@, text@, mode),
    {
        match mode {
            ClipboardMode::Stack => {
                let ghost before = token_views(self.stack@);
                self.stack.push(text.to_owned());
                assert(token_views(self.stack@) =~= before.push(text@));
                self.trim_stack();
            },
            ClipboardMode::Queue => {
                let ghost before = token_views(self.queue@);
                self.queue.push_back(text.to_owned());
                assert(token_views(self.queue@) =~= before.push(text@));
                self.trim_queue();
            },
            ClipboardMode::Increment => {
                self.increment_text = Some(text.to_owned());
            },
        }
    }

    /// Hands back the text to paste next, if there is one. In stack mode
    /// that is the text copied last, in queue mode the text copied first;
    /// either leaves the history. In increment mode it is the kept text with
    /// its numbers increased by one, which is then kept in its place.
    pub fn next_paste(&mut self, mode: ClipboardMode) -> (pasted: Option<String>)
        ensures
            text_view(pasted) == paste_of(old(self)@, mode),
            final(self)@ == after_paste(old(self)@, mode),
    {
        match mode {
            ClipboardMode::Stack => {
                let ghost before = token_views(self.stack@);
                let pasted = self.stack.pop();
                proof {
                    if before.len() > 0 {
                        assert(token_views(self.stack@) =~= before.drop_last());
                    }
                }
                pasted
            },
            ClipboardMode::Queue => {
                let ghost before = token_views(self.queue@);
                let pasted = self.queue.pop_front();
                proof {
                    if before.len() > 0 {
                        assert(token_views(self.queue@) =~= before.drop_first());
                    }
                }
                pasted
            },
            ClipboardMode::Increment => {
                let next = match &self.increment_text {
                    Some(current) => increment_numbers(current.as_str()),
                    None => {
                        return None;
                    },
                };
                self.increment_text = Some(next.clone());
                Some(next)
            },
        }
    }

    /// Number of texts on the stack.
    pub fn stack_len(&self) -> (n: usize)
        ensures
            n == self@.stack.len(),
    {
        self.stack.len()
    }

    /// Number of texts in the queue.
    pub fn queue_len(&self) -> (n: usize)
        ensures
            n == self@.queue.len(),
    {
        self.queue.len()
    }

    /// The text kept in increment mode, if there is one.
    pub fn increment_text(&self) -> (text: Option<&str>)
        ensures
            slice_view(text) == self@.increment_text,
    {
        match &self.increment_text {
            Some(text) => Some(text.as_str()),
            None => None,
        }
    }

    /// Drops the oldest texts of the stack until it holds no more than it may.
    fn trim_stack(&mut self)
        ensures
            final(self)@ == (HistoryModel {
                stack: keep_last(old(self)@.stack, old(self)@.max_items),
                ..old(self)@
            }),
    {
        if self.stack.len() > self.max_items {
            let ghost before = token_views(self.stack@);
            let overflow: usize = self.stack.len() - self.max_items;
            let kept = self.stack.split_off(overflow);
            self.stack = kept;
            assert(token_views(self.stack@) =~= keep_last(before, self.max_items as nat));
        }
    }

    /// Drops the oldest texts of the queue until it holds no more than it may.
    fn trim_queue(&mut self)
        ensures
            final(self)@ == (HistoryModel {
                queue: keep_last(old(self)@.queue, old(self)@.max_items),
                ..old(self)@
            }),
    {
        let ghost before = token_views(self.queue@);
        while self.queue.len() > self.max_items
            invariant
                self.max_items == old(self).max_items,
                self.stack == old(self).stack,
                self.increment_text == old(self).increment_text,
                before == token_views(old(self).queue@),
                self.queue.len() <= before.len(),
                before.len() > self.max_items ==> self.queue.len() >= self.max_items,
                before.len() <= self.max_items ==> self.queue.len() == before.len(),
                token_views(self.queue@) == before.subrange(
                    before.len() - self.queue.len(),
                    before.len() as int,
                ),
            decreases self.queue.len(),
        {
            let ghost current = token_views(self.queue@);
            self.queue.pop_front();
            assert(token_views(self.queue@) =~= current.drop_first());
            assert(current.drop_first() =~= before.subrange(
                before.len() - self.queue.len(),
                before.len() as int,
            ));
        }
        assert(before.subrange(0, before.len() as int) =~= before);
    }
}

} // verus!
