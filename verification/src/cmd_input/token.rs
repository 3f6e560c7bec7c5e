//! Splitting the command buffer into quoting-aware words, and joining them
//! again.
//!
//! A space outside quotes ends a word. A quote character (`'` or `"`) outside
//! quotes opens a quoted stretch that lasts until the same character returns;
//! the quote characters themselves are not part of the word, but the word
//! remembers that it was quoted and with which character. A quote that is
//! never closed swallows the rest of the line into the last word, which is
//! then not marked as quoted.

use vstd::prelude::*;

use crate::chars::{append_str, string_from_chars};

verus! {

/// One word of the command line.
pub struct Token {
    pub contents: String,
    is_quoted: bool,
    quote_char: char,
    start_pos: usize,
    end_pos: usize,
}

/// What a token is, as plain values. The word occupies the half-open span
/// `[start_pos, end_pos)` of the buffer it was read from.
pub struct TokenView {
    pub contents: Seq<char>,
    pub is_quoted: bool,
    pub quote_char: char,
    pub start_pos: int,
    pub end_pos: int,
}

impl View for Token {
    type V = TokenView;

    closed spec fn view(&self) -> TokenView {
        TokenView {
            contents: self.contents@,
            is_quoted: self.is_quoted,
            quote_char: self.quote_char,
            start_pos: self.start_pos as int,
            end_pos: self.end_pos as int,
        }
    }
}

impl DeepView for Token {
    type V = TokenView;

    open spec fn deep_view(&self) -> TokenView {
        self@
    }
}

/// Whether `c` is one of the two quote characters.
pub open spec fn is_quote(c: char) -> bool {
    c == '"' || c == '\''
}

/// The tokenizer's state after it has read a prefix of the buffer.
pub struct Scan {
    /// The words that a space has already ended.
    pub tokens: Seq<TokenView>,
    /// The characters of the word being read.
    pub current: Seq<char>,
    /// Whether the scan stands inside quotes.
    pub in_quote: bool,
    /// Whether the word being read has had a complete quoted stretch.
    pub was_quoted: bool,
    /// The quote character seen last; `'` before any was seen.
    pub quote_char: char,
    /// Where the word being read starts.
    pub start_pos: int,
}

impl Scan {
    /// The state before any character is read.
    pub open spec fn start() -> Scan {
        Scan {
            tokens: Seq::empty(),
            current: Seq::empty(),
            in_quote: false,
            was_quoted: false,
            quote_char: '\'',
            start_pos: 0,
        }
    }

    /// The word being read, taken to end at `end`.
    pub open spec fn pending(self, end: int) -> TokenView {
        TokenView {
            contents: self.current,
            is_quoted: self.was_quoted,
            quote_char: self.quote_char,
            start_pos: self.start_pos,
            end_pos: end,
        }
    }

    /// The state after reading the character `c` at index `idx`.
    pub open spec fn step(self, idx: int, c: char) -> Scan {
        if !self.in_quote && c == ' ' {
            Scan {
                tokens: self.tokens.push(self.pending(idx)),
                current: Seq::empty(),
                was_quoted: false,
                start_pos: idx + 1,
                ..self
            }
        } else if !self.in_quote && is_quote(c) {
            Scan { in_quote: true, quote_char: c, start_pos: idx, ..self }
        } else if self.in_quote && is_quote(c) && c == self.quote_char {
            Scan { in_quote: false, was_quoted: true, ..self }
        } else {
            Scan { current: self.current.push(c), ..self }
        }
    }
}

/// The tokenizer's state after the first `n` characters of `input`.
pub open spec fn scan(input: Seq<char>, n: int) -> Scan
    decreases n,
{
    if n <= 0 {
        Scan::start()
    } else {
        scan(input, n - 1).step(n - 1, input[n - 1])
    }
}

/// The words of `input`. A buffer of at most one character has none;
/// otherwise the words that spaces ended are followed by the word that the
/// end of the buffer ends.
pub open spec fn parse(input: Seq<char>) -> Seq<TokenView> {
    if input.len() <= 1 {
        Seq::empty()
    } else {
        let last = scan(input, input.len() as int);
        last.tokens.push(last.pending(input.len() as int))
    }
}

/// A word as it is written on the command line: in its quotes if it was quoted.
pub open spec fn assembled(token: TokenView) -> Seq<char> {
    if token.is_quoted {
        seq![token.quote_char] + token.contents + seq![token.quote_char]
    } else {
        token.contents
    }
}

/// The words written out and joined by single spaces.
pub open spec fn assemble(tokens: Seq<TokenView>) -> Seq<char>
    decreases tokens.len(),
{
    if tokens.len() == 0 {
        Seq::empty()
    } else if tokens.len() == 1 {
        assembled(tokens[0])
    } else {
        assemble(tokens.drop_last()) + seq![' '] + assembled(tokens.last())
    }
}

impl Token {
    pub fn new(contents: String, is_quoted: bool, quote_char: char, start_pos: usize, end_pos: usize) -> (token: Self)
        ensures
            token@ == (TokenView {
                contents: contents@,
                is_quoted,
                quote_char,
                start_pos: start_pos as int,
                end_pos: end_pos as int,
            }),
    {
        Token { contents, is_quoted, quote_char, start_pos, end_pos }
    }

    /// A token's positions are indices of the machine.
    pub proof fn lemma_positions(&self)
        ensures
            0 <= self@.start_pos <= usize::MAX,
            0 <= self@.end_pos <= usize::MAX,
    {
    }

    /// Splits the buffer into its words.
    pub fn parse_input(input: &Vec<char>) -> (tokens: Vec<Token>)
        ensures
            tokens.deep_view() == parse(input@),
    {
        let mut tokens: Vec<Token> = Vec::new();
        if input.len() <= 1 {
            assert(tokens.deep_view() =~= parse(input@));
            return tokens;
        }
        let mut current: Vec<char> = Vec::new();
        let mut in_quote = false;
        let mut was_quoted = false;
        let mut quote_char = '\'';
        let mut start_pos: usize = 0;
        let mut idx: usize = 0;
        assert(tokens.deep_view() =~= Scan::start().tokens);
        while idx < input.len()
            invariant
                idx <= input.len(),
                tokens.deep_view() == scan(input@, idx as int).tokens,
                current@ == scan(input@, idx as int).current,
                in_quote == scan(input@, idx as int).in_quote,
                was_quoted == scan(input@, idx as int).was_quoted,
                quote_char == scan(input@, idx as int).quote_char,
                start_pos == scan(input@, idx as int).start_pos,
            decreases input.len() - idx,
        {
            let c = input[idx];
            let ghost before = scan(input@, idx as int);
            assert(scan(input@, idx + 1) == before.step(idx as int, c));
            if !in_quote && c == ' ' {
                let ghost views = tokens.deep_view();
                let token = Token {
                    contents: string_from_chars(&current),
                    is_quoted: was_quoted,
                    quote_char,
                    start_pos,
                    end_pos: idx,
                };
                tokens.push(token);
                assert(tokens.deep_view() =~= views.push(before.pending(idx as int)));
                start_pos = idx + 1;
                current = Vec::new();
                was_quoted = false;
            } else if !in_quote && (c == '"' || c == '\'') {
                in_quote = true;
                quote_char = c;
                start_pos = idx;
            } else if in_quote && c == quote_char && (c == '"' || c == '\'') {
                in_quote = false;
                was_quoted = true;
            } else {
                current.push(c);
            }
            idx += 1;
        }
        let ghost last = scan(input@, input@.len() as int);
        let ghost views = tokens.deep_view();
        let token = Token {
            contents: string_from_chars(&current),
            is_quoted: was_quoted,
            quote_char,
            start_pos,
            end_pos: input.len(),
        };
        tokens.push(token);
        assert(tokens.deep_view() =~= views.push(last.pending(input@.len() as int)));
        tokens
    }

    /// Writes out the first `count` words, joined by single spaces; all of
    /// them if there are no more than `count`.
    pub fn assemble_first(tokens: &Vec<Token>, count: usize) -> (line: Vec<char>)
        ensures
            line@ == assemble(
                tokens.deep_view().take(
                    if count <= tokens.len() {
                        count as int
                    } else {
                        tokens.len() as int
                    },
                ),
            ),
    {
        let count = if count <= tokens.len() {
            count
        } else {
            tokens.len()
        };
        let mut line: Vec<char> = Vec::new();
        let ghost views = tokens.deep_view();
        let mut i: usize = 0;
        while i < count
            invariant
                i <= count <= tokens.len(),
                views == tokens.deep_view(),
                line@ == assemble(views.take(i as int)),
            decreases count - i,
        {
            let ghost head = views.take(i as int);
            let ghost next = views.take(i + 1);
            assert(next.drop_last() =~= head);
            assert(next.last() == tokens[i as int]@);
            if i > 0 {
                line.push(' ');
            }
            tokens[i].append_assembled(&mut line);
            i += 1;
        }
        line
    }

    /// Writes the words out again, joined by single spaces.
    pub fn assemble_tokens(tokens: &Vec<Token>) -> (line: Vec<char>)
        ensures
            line@ == assemble(tokens.deep_view()),
    {
        assert(tokens.deep_view().take(tokens.len() as int) =~= tokens.deep_view());
        Token::assemble_first(tokens, tokens.len())
    }

    /// Appends the word, in its quotes if it was quoted, to `out`.
    fn append_assembled(&self, out: &mut Vec<char>)
        ensures
            final(out)@ == old(out)@ + assembled(self@),
    {
        if self.is_quoted {
            out.push(self.quote_char);
            append_str(out, self.contents.as_str());
            out.push(self.quote_char);
            assert(out@ =~= old(out)@ + assembled(self@));
        } else {
            append_str(out, self.contents.as_str());
        }
    }

    /// The word as it is written on the command line.
    pub fn get_assembled(&self) -> (text: String)
        ensures
            text@ == assembled(self@),
    {
        let mut out: Vec<char> = Vec::new();
        self.append_assembled(&mut out);
        assert(out@ =~= assembled(self@));
        string_from_chars(&out)
    }

    pub fn get_contents(&self) -> (contents: &str)
        ensures
            contents@ == self@.contents,
    {
        self.contents.as_str()
    }

    /// Replaces the word's text; its quoting and its span stay as they are.
    pub fn set_contents(&mut self, contents: String)
        ensures
            final(self)@ == (TokenView { contents: contents@, ..old(self)@ }),
    {
        self.contents = contents;
    }

    pub fn get_is_quoted(&self) -> (is_quoted: bool)
        ensures
            is_quoted == self@.is_quoted,
    {
        self.is_quoted
    }

    pub fn get_quote_char(&self) -> (quote_char: char)
        ensures
            quote_char == self@.quote_char,
    {
        self.quote_char
    }

    pub fn get_start_pos(&self) -> (start_pos: usize)
        ensures
            start_pos == self@.start_pos,
    {
        self.start_pos
    }

    pub fn get_end_pos(&self) -> (end_pos: usize)
        ensures
            end_pos == self@.end_pos,
    {
        self.end_pos
    }
}


/// Whether the spans of the words read so far lie in order inside the first
/// `n` characters, each before the start of the word being read.
spec fn spans_in_order(state: Scan, n: int) -> bool {
    &&& 0 <= state.start_pos <= n
    &&& forall|k: int|
        0 <= k < state.tokens.len() ==> 0 <= (#[trigger] state.tokens[k]).start_pos
            <= state.tokens[k].end_pos < state.start_pos
    &&& forall|k: int, m: int|
        0 <= k < m < state.tokens.len() ==> (#[trigger] state.tokens[k]).end_pos
            < (#[trigger] state.tokens[m]).start_pos
}

proof fn lemma_scan_spans(input: Seq<char>, n: int)
    requires
        0 <= n <= input.len(),
    ensures
        spans_in_order(scan(input, n), n),
    decreases n,
{
    if n > 0 {
        lemma_scan_spans(input, n - 1);
        let before = scan(input, n - 1);
        let after = scan(input, n);
        assert(after == before.step(n - 1, input[n - 1]));
        assert forall|k: int| 0 <= k < after.tokens.len() implies 0 <= (
        #[trigger] after.tokens[k]).start_pos <= after.tokens[k].end_pos < after.start_pos by {
            if k < before.tokens.len() {
                assert(after.tokens[k] == before.tokens[k]);
            }
        }
        assert forall|k: int, m: int| 0 <= k < m < after.tokens.len() implies (
        #[trigger] after.tokens[k]).end_pos < (#[trigger] after.tokens[m]).start_pos by {
            assert(after.tokens[k] == before.tokens[k]);
            if m < before.tokens.len() {
                assert(after.tokens[m] == before.tokens[m]);
            }
        }
    }
}

/// The spans of the words lie inside the buffer, and each word ends before
/// the next one starts: no position belongs to two words.
pub proof fn lemma_spans_ordered(input: Seq<char>)
    ensures
        forall|k: int|
            0 <= k < parse(input).len() ==> 0 <= (#[trigger] parse(input)[k]).start_pos <= parse(
                input,
            )[k].end_pos <= input.len(),
        forall|k: int, m: int|
            0 <= k < m < parse(input).len() ==> (#[trigger] parse(input)[k]).end_pos < (
            #[trigger] parse(input)[m]).start_pos,
{
    if input.len() > 1 {
        let n = input.len() as int;
        lemma_scan_spans(input, n);
        let last = scan(input, n);
        let tokens = parse(input);
        assert forall|k: int| 0 <= k < tokens.len() implies 0 <= (#[trigger] tokens[k]).start_pos
            <= tokens[k].end_pos <= input.len() by {
            if k < last.tokens.len() {
                assert(tokens[k] == last.tokens[k]);
            }
        }
        assert forall|k: int, m: int| 0 <= k < m < tokens.len() implies (
        #[trigger] tokens[k]).end_pos < (#[trigger] tokens[m]).start_pos by {
            assert(tokens[k] == last.tokens[k]);
            if m < last.tokens.len() {
                assert(tokens[m] == last.tokens[m]);
            }
        }
    }
}

/// The first words written out are the start of all the words written out.
pub proof fn lemma_assemble_prefix(tokens: Seq<TokenView>, count: int)
    requires
        0 <= count <= tokens.len(),
    ensures
        assemble(tokens.take(count)).is_prefix_of(assemble(tokens)),
    decreases tokens.len() - count,
{
    if count == tokens.len() {
        assert(tokens.take(count) =~= tokens);
    } else {
        lemma_assemble_prefix(tokens, count + 1);
        let longer = tokens.take(count + 1);
        assert(longer.drop_last() =~= tokens.take(count));
        if count == 0 {
            assert(assemble(tokens.take(0)) =~= Seq::<char>::empty());
        }
        assert(assemble(tokens.take(count)).is_prefix_of(assemble(longer)));
    }
}

/// Whether no character of `input` is a quote character.
pub open spec fn never_quoted(input: Seq<char>) -> bool {
    forall|i: int| 0 <= i < input.len() ==> !is_quote(#[trigger] input[i])
}

/// What holds of the scan of a buffer without quotes: no word is quoted,
/// every word is the stretch of the buffer that its span names, the words
/// follow each other with one space between them, and the first words
/// written out are the start of the buffer.
spec fn plain_scan(input: Seq<char>, state: Scan, n: int) -> bool {
    &&& !state.in_quote
    &&& !state.was_quoted
    &&& 0 <= state.start_pos <= n
    &&& state.current == input.subrange(state.start_pos, n)
    &&& state.start_pos == if state.tokens.len() == 0 {
        0
    } else {
        state.tokens.last().end_pos + 1
    }
    &&& forall|k: int|
        0 <= k < state.tokens.len() ==> {
            let token = #[trigger] state.tokens[k];
            &&& !token.is_quoted
            &&& 0 <= token.start_pos <= token.end_pos < n
            &&& token.contents == input.subrange(token.start_pos, token.end_pos)
            &&& input[token.end_pos] == ' '
            &&& token.start_pos == if k == 0 {
                0
            } else {
                state.tokens[k - 1].end_pos + 1
            }
            &&& assemble(state.tokens.take(k + 1)) == input.take(token.end_pos)
        }
}

proof fn lemma_plain_scan(input: Seq<char>, n: int)
    requires
        never_quoted(input),
        0 <= n <= input.len(),
    ensures
        plain_scan(input, scan(input, n), n),
        assemble(scan(input, n).tokens.push(scan(input, n).pending(n))) == input.take(n),
    decreases n,
{
    let after = scan(input, n);
    if n == 0 {
        assert(after.current =~= input.subrange(0, 0));
        assert(after.tokens.push(after.pending(0)).len() == 1);
        assert(assemble(after.tokens.push(after.pending(0))) =~= input.take(0));
    } else {
        lemma_plain_scan(input, n - 1);
        let before = scan(input, n - 1);
        let c = input[n - 1];
        assert(after == before.step(n - 1, c));
        assert(!is_quote(c));
        let old_words = before.tokens.push(before.pending(n - 1));
        let new_words = after.tokens.push(after.pending(n));
        assert(input.take(n) =~= input.take(n - 1).push(c));
        if c == ' ' {
            assert(after.current =~= input.subrange(after.start_pos, n));
            assert(after.tokens == old_words);
            assert(new_words.drop_last() =~= old_words);
            assert(assembled(new_words.last()) =~= Seq::<char>::empty());
            assert(assemble(new_words) =~= input.take(n));
        } else {
            assert(after.current =~= input.subrange(after.start_pos, n));
            assert(new_words.drop_last() =~= before.tokens);
            assert(old_words.drop_last() =~= before.tokens);
            assert(assembled(new_words.last()) =~= assembled(old_words.last()).push(c));
            if before.tokens.len() == 0 {
                assert(new_words.len() == 1 && old_words.len() == 1);
                assert(new_words[0] == new_words.last());
                assert(old_words[0] == old_words.last());
            } else {
                assert(assemble(new_words) =~= assemble(old_words).push(c));
            }
        }
        assert forall|k: int| 0 <= k < after.tokens.len() implies {
            let token = #[trigger] after.tokens[k];
            &&& !token.is_quoted
            &&& 0 <= token.start_pos <= token.end_pos < n
            &&& token.contents == input.subrange(token.start_pos, token.end_pos)
            &&& input[token.end_pos] == ' '
            &&& token.start_pos == if k == 0 {
                0
            } else {
                after.tokens[k - 1].end_pos + 1
            }
            &&& assemble(after.tokens.take(k + 1)) == input.take(token.end_pos)
        } by {
            if k < before.tokens.len() {
                assert(after.tokens[k] == before.tokens[k]);
                assert(after.tokens.take(k + 1) =~= before.tokens.take(k + 1));
                if k > 0 {
                    assert(after.tokens[k - 1] == before.tokens[k - 1]);
                }
            } else {
                assert(after.tokens.take(k + 1) =~= old_words);
                if k > 0 {
                    assert(after.tokens[k - 1] == before.tokens[k - 1]);
                }
            }
        }
    }
}

/// In a buffer without quotes no word is quoted, and the text of every word
/// is the stretch of the buffer that its span names.
pub proof fn lemma_plain_words(input: Seq<char>)
    requires
        never_quoted(input),
    ensures
        forall|k: int|
            0 <= k < parse(input).len() ==> {
                let token = #[trigger] parse(input)[k];
                &&& !token.is_quoted
                &&& 0 <= token.start_pos <= token.end_pos <= input.len()
                &&& token.contents == input.subrange(token.start_pos, token.end_pos)
            },
{
    if input.len() > 1 {
        let n = input.len() as int;
        lemma_plain_scan(input, n);
        let last = scan(input, n);
        let tokens = parse(input);
        assert forall|k: int| 0 <= k < tokens.len() implies {
            let token = #[trigger] tokens[k];
            &&& !token.is_quoted
            &&& 0 <= token.start_pos <= token.end_pos <= input.len()
            &&& token.contents == input.subrange(token.start_pos, token.end_pos)
        } by {
            if k < last.tokens.len() {
                assert(tokens[k] == last.tokens[k]);
            }
        }
    }
}

/// In a buffer without quotes the words lie one behind the other from the
/// start of the buffer to its end, with one space between each two, and the
/// first words written out are the buffer up to the end of the last of them.
pub proof fn lemma_plain_layout(input: Seq<char>)
    requires
        never_quoted(input),
        input.len() > 1,
    ensures
        parse(input).len() >= 1,
        parse(input).first().start_pos == 0,
        parse(input).last().end_pos == input.len(),
        forall|k: int|
            0 <= k < parse(input).len() - 1 ==> {
                let token = #[trigger] parse(input)[k];
                &&& 0 <= token.end_pos < input.len()
                &&& input[token.end_pos] == ' '
                &&& parse(input)[k + 1].start_pos == token.end_pos + 1
            },
        forall|k: int|
            0 <= k < parse(input).len() ==> #[trigger] assemble(parse(input).take(k + 1))
                == input.take(parse(input)[k].end_pos),
{
    let n = input.len() as int;
    lemma_plain_scan(input, n);
    let last = scan(input, n);
    let tokens = parse(input);
    assert(tokens.take(tokens.len() as int) =~= tokens);
    assert forall|k: int| 0 <= k < tokens.len() - 1 implies {
        let token = #[trigger] tokens[k];
        &&& 0 <= token.end_pos < input.len()
        &&& input[token.end_pos] == ' '
        &&& tokens[k + 1].start_pos == token.end_pos + 1
    } by {
        assert(tokens[k] == last.tokens[k]);
        if k + 1 < last.tokens.len() {
            assert(tokens[k + 1] == last.tokens[k + 1]);
        }
    }
    assert forall|k: int| 0 <= k < tokens.len() implies #[trigger] assemble(tokens.take(k + 1))
        == input.take(tokens[k].end_pos) by {
        if k < last.tokens.len() {
            assert(tokens[k] == last.tokens[k]);
            assert(tokens.take(k + 1) =~= last.tokens.take(k + 1));
        }
    }
    if last.tokens.len() > 0 {
        assert(tokens.first() == last.tokens[0]);
    }
}

/// Words written out are their first words written out, a space, and the
/// other words written out.
pub proof fn lemma_assemble_concat(first: Seq<TokenView>, second: Seq<TokenView>)
    requires
        first.len() > 0,
        second.len() > 0,
    ensures
        assemble(first + second) == assemble(first) + seq![' '] + assemble(second),
    decreases second.len(),
{
    let all = first + second;
    assert(all.last() == second.last());
    if second.len() == 1 {
        assert(all.drop_last() =~= first);
        assert(second[0] == second.last());
    } else {
        assert(all.drop_last() =~= first + second.drop_last());
        lemma_assemble_concat(first, second.drop_last());
        assert(assemble(all) =~= assemble(first) + seq![' '] + assemble(second));
    }
}

/// Splitting a buffer without quotes into words and joining the words again
/// gives the buffer back, however its spaces lie. A buffer of exactly one
/// character is the exception: it has no words.
pub proof fn lemma_round_trip(input: Seq<char>)
    requires
        never_quoted(input),
        input.len() != 1,
    ensures
        assemble(parse(input)) == input,
{
    if input.len() == 0 {
        assert(assemble(parse(input)) =~= input);
    } else {
        lemma_plain_scan(input, input.len() as int);
        assert(input.take(input.len() as int) =~= input);
    }
}

} // verus!
