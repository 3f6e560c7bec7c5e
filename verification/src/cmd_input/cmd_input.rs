//! The line editor: a buffer of characters, a cursor in it, and the keys
//! that change them.

use vstd::prelude::*;

use crate::cmd_input::render::{render_line, rendered};
use crate::cmd_input::suggester::Suggester;
use crate::cmd_input::tab_handler::{TabHandler, TabHandlerView};
use crate::cmd_input::token::{
    assemble, assembled, lemma_assemble_concat, lemma_assemble_prefix, lemma_plain_layout,
    lemma_plain_words, lemma_round_trip, lemma_spans_ordered, never_quoted, parse, Token,
    TokenView,
};
use crate::error::YeeshError;

verus! {

/// A key press, as far as the editor tells keys apart.
#[derive(Clone, Copy, Debug, PartialEq, Eq, Structural)]
pub enum Key {
    /// A character key. The tab character asks for completion.
    Char(char),
    Backspace,
    Left,
    Right,
    /// Any other key; the editor ignores it.
    Other,
}

/// Whether the last key asked for completion.
#[derive(Clone, Copy, Debug, PartialEq, Eq, Structural)]
pub enum CompletionState {
    /// The line was edited, or nothing has happened yet: the next completion
    /// asks the sources again.
    Idle,
    /// The last key was a completion: the next one goes on through the same
    /// candidates.
    Cycling,
}

/// A buffer and the cursor in it.
pub struct Line {
    pub buffer: Seq<char>,
    pub cursor: int,
}

impl Line {
    /// The cursor stands in the buffer or right behind it.
    pub open spec fn wf(self) -> bool {
        0 <= self.cursor <= self.buffer.len()
    }

    /// The line after the character `c` is typed: `c` goes in at the cursor
    /// and the cursor moves behind it. If the cursor then stands at the end
    /// of the buffer, one space is added behind it, so that the last word
    /// always has a space after it.
    pub open spec fn type_char(self, c: char) -> Line {
        let inserted = self.buffer.insert(self.cursor, c);
        Line {
            buffer: if self.cursor == self.buffer.len() {
                inserted.push(' ')
            } else {
                inserted
            },
            cursor: self.cursor + 1,
        }
    }

    /// The line after a backspace: the character before the cursor goes, if
    /// there is one.
    pub open spec fn backspace(self) -> Line {
        if self.cursor > 0 {
            Line { buffer: self.buffer.remove(self.cursor - 1), cursor: self.cursor - 1 }
        } else {
            self
        }
    }

    /// The line after the cursor has moved left, if it can.
    pub open spec fn left(self) -> Line {
        Line { cursor: if self.cursor > 0 { self.cursor - 1 } else { self.cursor }, ..self }
    }

    /// The line after the cursor has moved right, if it can.
    pub open spec fn right(self) -> Line {
        Line {
            cursor: if self.cursor < self.buffer.len() {
                self.cursor + 1
            } else {
                self.cursor
            },
            ..self
        }
    }

    /// The line after `chars` have been typed one after the other.
    pub open spec fn type_all(self, chars: Seq<char>) -> Line
        decreases chars.len(),
    {
        if chars.len() == 0 {
            self
        } else {
            self.type_all(chars.drop_last()).type_char(chars.last())
        }
    }

    /// The line after `count` backspaces.
    pub open spec fn backspace_by(self, count: nat) -> Line
        decreases count,
    {
        if count == 0 {
            self
        } else {
            self.backspace().backspace_by((count - 1) as nat)
        }
    }

    /// Whether word `k` of the buffer is the one under the cursor: the one
    /// whose span holds the position before the cursor.
    pub open spec fn is_active(self, k: int) -> bool {
        let tokens = parse(self.buffer);
        0 <= k < tokens.len() && tokens[k].start_pos <= self.cursor - 1 < tokens[k].end_pos
    }

    /// Whether a word is under the cursor.
    pub open spec fn has_active(self) -> bool {
        exists|k: int| self.is_active(k)
    }

    /// The word under the cursor, where there is one.
    pub open spec fn active(self) -> int {
        choose|k: int| self.is_active(k)
    }

    /// The words of the buffer with the text of word `k` replaced.
    pub open spec fn replaced(self, k: int, replacement: Seq<char>) -> Seq<TokenView> {
        let tokens = parse(self.buffer);
        tokens.update(k, TokenView { contents: replacement, ..tokens[k] })
    }

    /// The line after the word under the cursor has been completed to
    /// `replacement`: the words are written out again with that word's text
    /// replaced, and the cursor stands behind that word. Without a word under
    /// the cursor nothing changes.
    pub open spec fn complete(self, replacement: Seq<char>) -> Line {
        if self.has_active() {
            let k = self.active();
            let tokens = self.replaced(k, replacement);
            Line { buffer: assemble(tokens), cursor: assemble(tokens.take(k + 1)).len() as int }
        } else {
            self
        }
    }
}

/// At most one word is under the cursor.
pub proof fn lemma_active_unique(line: Line, k: int, m: int)
    requires
        line.is_active(k),
        line.is_active(m),
    ensures
        k == m,
{
    lemma_spans_ordered(line.buffer);
}

/// In a buffer without quotes, the words up to word `k` written out, with
/// the text of word `k` replaced, are the buffer up to the start of that
/// word and the replacement.
proof fn lemma_replaced_head(input: Seq<char>, k: int, replacement: Seq<char>)
    requires
        never_quoted(input),
        0 <= k < parse(input).len(),
    ensures
        assemble(
            parse(input).update(
                k,
                TokenView { contents: replacement, ..parse(input)[k] },
            ).take(k + 1),
        ) == input.take(parse(input)[k].start_pos) + replacement,
{
    let tokens = parse(input);
    let word = tokens[k];
    let changed = tokens.update(k, TokenView { contents: replacement, ..word });
    let new_head = changed.take(k + 1);
    lemma_plain_words(input);
    lemma_plain_layout(input);
    assert(new_head.drop_last() =~= tokens.take(k));
    assert(new_head.last() == changed[k]);
    assert(!word.is_quoted);
    assert(assembled(changed[k]) == replacement);
    if k == 0 {
        assert(word == tokens.first());
        assert(input.take(0) =~= Seq::<char>::empty());
        assert(new_head.len() == 1);
        assert(new_head[0] == changed[k]);
        assert(assemble(new_head) =~= input.take(word.start_pos) + replacement);
    } else {
        let before = tokens[k - 1];
        assert(assemble(tokens.take((k - 1) + 1)) == input.take(before.end_pos));
        assert(tokens[(k - 1) + 1].start_pos == before.end_pos + 1);
        assert(input.take(before.end_pos) + seq![' '] =~= input.take(word.start_pos));
        assert(assemble(new_head) == assemble(tokens.take(k)) + seq![' '] + replacement);
    }
}

/// In a buffer without quotes, the words behind word `k` written out are
/// the buffer behind the space that ends that word.
proof fn lemma_plain_tail(input: Seq<char>, k: int)
    requires
        never_quoted(input),
        0 <= k < parse(input).len() - 1,
    ensures
        0 <= parse(input)[k].end_pos < input.len(),
        input[parse(input)[k].end_pos] == ' ',
        assemble(parse(input).skip(k + 1)) == input.skip(parse(input)[k].end_pos + 1),
{
    let tokens = parse(input);
    let end = tokens[k].end_pos;
    let head = tokens.take(k + 1);
    let tail = tokens.skip(k + 1);
    lemma_plain_layout(input);
    lemma_round_trip(input);
    assert(tokens =~= head + tail);
    lemma_assemble_concat(head, tail);
    assert(assemble(head) == input.take(end));
    let joined = input.take(end) + seq![' '] + assemble(tail);
    assert(input == joined);
    assert(assemble(tail).len() == input.len() - end - 1);
    assert forall|i: int| 0 <= i < assemble(tail).len() implies assemble(tail)[i] == input.skip(
        end + 1,
    )[i] by {
        assert(joined[end + 1 + i] == assemble(tail)[i]);
    }
    assert(assemble(tail) =~= input.skip(end + 1));
}

/// On a line without quotes, completion replaces the word under the cursor
/// and nothing else: what stands before the word and behind it stays, and
/// the cursor comes to stand behind the replacement.
pub proof fn lemma_complete_plain(line: Line, replacement: Seq<char>)
    requires
        never_quoted(line.buffer),
        line.has_active(),
    ensures
        line.complete(replacement) == (Line {
            buffer: line.buffer.take(parse(line.buffer)[line.active()].start_pos) + replacement
                + line.buffer.skip(parse(line.buffer)[line.active()].end_pos),
            cursor: parse(line.buffer)[line.active()].start_pos + replacement.len(),
        }),
{
    let input = line.buffer;
    let k = line.active();
    let tokens = parse(input);
    let word = tokens[k];
    let changed = line.replaced(k, replacement);
    let new_head = changed.take(k + 1);
    let start = input.take(word.start_pos);
    lemma_spans_ordered(input);
    lemma_replaced_head(input, k, replacement);
    assert(assemble(new_head) == start + replacement);
    assert(start.len() == word.start_pos);
    if k == tokens.len() - 1 {
        lemma_plain_layout(input);
        assert(word == tokens.last());
        assert(changed =~= new_head);
        assert(input.skip(word.end_pos) =~= Seq::<char>::empty());
        assert(assemble(changed) =~= start + replacement + input.skip(word.end_pos));
    } else {
        let tail = tokens.skip(k + 1);
        lemma_plain_tail(input, k);
        assert(changed =~= new_head + tail);
        lemma_assemble_concat(new_head, tail);
        assert(seq![' '] + input.skip(word.end_pos + 1) =~= input.skip(word.end_pos));
        assert(assemble(changed) =~= start + replacement + input.skip(word.end_pos));
    }
}

/// Typing keeps the cursor in the buffer, moves it on by one for each
/// character, and leaves it before the end of the buffer.
proof fn lemma_typed(line: Line, chars: Seq<char>)
    requires
        line.wf(),
    ensures
        line.type_all(chars).wf(),
        line.type_all(chars).cursor == line.cursor + chars.len(),
        chars.len() > 0 ==> line.type_all(chars).cursor < line.type_all(chars).buffer.len(),
    decreases chars.len(),
{
    if chars.len() > 0 {
        lemma_typed(line, chars.drop_last());
    }
}

/// Typing a character and erasing it again restores the line, but for the
/// space that typing at the end of the buffer has added.
proof fn lemma_type_then_erase(line: Line, c: char)
    requires
        line.wf(),
    ensures
        line.type_char(c).backspace() == (Line {
            buffer: if line.cursor == line.buffer.len() {
                line.buffer.push(' ')
            } else {
                line.buffer
            },
            cursor: line.cursor,
        }),
{
    let typed = line.type_char(c);
    let erased = typed.backspace();
    if line.cursor == line.buffer.len() {
        assert(erased.buffer =~= line.buffer.push(' '));
    } else {
        assert(erased.buffer =~= line.buffer);
    }
}

/// Insert and backspace mirror each other: typing characters and then
/// pressing backspace once for each of them puts the cursor back where it
/// was and restores the buffer, but for the one space that typing at the end
/// of the buffer adds. An empty line is an empty line again if nothing was
/// typed, and else holds that space alone, which is no word.
pub proof fn lemma_insert_backspace(line: Line, chars: Seq<char>)
    requires
        line.wf(),
    ensures
        line.type_all(chars).backspace_by(chars.len()) == (Line {
            buffer: if chars.len() > 0 && line.cursor == line.buffer.len() {
                line.buffer.push(' ')
            } else {
                line.buffer
            },
            cursor: line.cursor,
        }),
        line.buffer.len() == 0 ==> parse(
            line.type_all(chars).backspace_by(chars.len()).buffer,
        ).len() == 0,
    decreases chars.len(),
{
    if chars.len() > 0 {
        let before = line.type_all(chars.drop_last());
        lemma_typed(line, chars.drop_last());
        lemma_type_then_erase(before, chars.last());
        let erased = before.type_char(chars.last()).backspace();
        assert(line.type_all(chars).backspace_by(chars.len()) == erased.backspace_by(
            (chars.len() - 1) as nat,
        ));
        if chars.len() == 1 {
            assert(chars.drop_last().len() == 0);
        } else {
            assert(erased == before);
            lemma_insert_backspace(line, chars.drop_last());
        }
    }
}

/// The editor's state as plain values.
pub struct CmdInputView {
    pub line: Line,
    pub state: CompletionState,
    pub completions: TabHandlerView,
}

impl CmdInputView {
    /// The state after a key that does not ask for completion. Typing and
    /// erasing end a run of completions; moving the cursor does not.
    pub open spec fn after_key(self, key: Key) -> CmdInputView {
        match key {
            Key::Char(c) => CmdInputView {
                line: self.line.type_char(c),
                state: CompletionState::Idle,
                ..self
            },
            Key::Backspace => CmdInputView {
                line: self.line.backspace(),
                state: CompletionState::Idle,
                ..self
            },
            Key::Left => CmdInputView { line: self.line.left(), ..self },
            Key::Right => CmdInputView { line: self.line.right(), ..self },
            Key::Other => self,
        }
    }

    /// Whether `after` is what a completion key may make of `self`.
    ///
    /// Without a word under the cursor only the completion state changes.
    /// Otherwise one candidate is taken: from a newly ranked cache if the
    /// last key was no completion or the cache was due to be refreshed, else
    /// from the cache as it stood. A candidate replaces the word under the
    /// cursor; where the cache is empty the line stays.
    pub open spec fn completion_step(self, after: CmdInputView) -> bool {
        &&& after.state == CompletionState::Cycling
        &&& if self.line.has_active() {
            let source = if self.state == CompletionState::Idle || self.completions.should_refresh {
                TabHandlerView::fresh(after.completions.cache)
            } else {
                self.completions
            };
            &&& after.completions == source.advance()
            &&& after.line == match source.current() {
                Some(replacement) => self.line.complete(replacement),
                None => self.line,
            }
        } else {
            &&& after.line == self.line
            &&& after.completions == self.completions
        }
    }
}

/// The word among `tokens` whose span holds the position before `cursor`.
fn find_active(tokens: &Vec<Token>, cursor: usize) -> (found: Option<usize>)
    ensures
        match found {
            Some(k) => k < tokens.len() && tokens.deep_view()[k as int].start_pos <= cursor - 1
                < tokens.deep_view()[k as int].end_pos,
            None => forall|k: int|
                0 <= k < tokens.len() ==> !((#[trigger] tokens.deep_view()[k]).start_pos <= cursor
                    - 1 < tokens.deep_view()[k].end_pos),
        },
{
    if cursor == 0 {
        assert forall|k: int| 0 <= k < tokens.len() implies !((
        #[trigger] tokens.deep_view()[k]).start_pos <= cursor - 1
            < tokens.deep_view()[k].end_pos) by {
            assert(tokens.deep_view()[k] == tokens[k]@);
            tokens[k].lemma_positions();
        }
        return None;
    }
    let target: usize = cursor - 1;
    let mut k: usize = 0;
    while k < tokens.len()
        invariant
            k <= tokens.len(),
            target == cursor - 1,
            forall|j: int|
                0 <= j < k ==> !((#[trigger] tokens.deep_view()[j]).start_pos <= target
                    < tokens.deep_view()[j].end_pos),
        decreases tokens.len() - k,
    {
        assert(tokens.deep_view()[k as int] == tokens[k as int]@);
        if tokens[k].get_start_pos() <= target && target < tokens[k].get_end_pos() {
            return Some(k);
        }
        k += 1;
    }
    None
}

/// Something that can tell where its cursor stands, as `(column, row)`
/// counted from one.
pub trait DetectCursorPosAlias {
    fn get_cursor_pos(&mut self) -> (usize, usize);
}

/// Something that takes the bytes the editor writes.
pub trait IoWriteAlias {
    fn write(&mut self, buf: &[u8]) -> Result<usize, YeeshError>;

    fn flush(&mut self) -> Result<(), YeeshError>;
}

/// The line editor.
pub struct CmdInput {
    input: Vec<char>,
    index: usize,
    state: CompletionState,
    tab_handler: TabHandler,
}

impl View for CmdInput {
    type V = CmdInputView;

    closed spec fn view(&self) -> CmdInputView {
        CmdInputView {
            line: Line { buffer: self.input@, cursor: self.index as int },
            state: self.state,
            completions: self.tab_handler@,
        }
    }
}

impl CmdInput {
    /// The sources of completion candidates that the editor asks.
    pub closed spec fn suggesters(&self) -> Seq<Box<dyn Suggester>> {
        self.tab_handler.suggesters()
    }

    /// An empty line, with the given sources of completion candidates.
    pub fn new(suggesters: Vec<Box<dyn Suggester>>) -> (editor: CmdInput)
        ensures
            editor.suggesters() == suggesters@,
            editor@ == (CmdInputView {
                line: Line { buffer: Seq::empty(), cursor: 0 },
                state: CompletionState::Idle,
                completions: TabHandlerView {
                    cache: Seq::empty(),
                    position: 0,
                    should_refresh: true,
                },
            }),
            editor@.line.wf(),
    {
        CmdInput {
            input: Vec::new(),
            index: 0,
            state: CompletionState::Idle,
            tab_handler: TabHandler::new(suggesters),
        }
    }

    pub fn get_input(&self) -> (input: &Vec<char>)
        ensures
            input@ == self@.line.buffer,
    {
        &self.input
    }

    pub fn get_index(&self) -> (index: usize)
        ensures
            index == self@.line.cursor,
    {
        self.index
    }

    pub fn get_line(&self) -> (line: (&Vec<char>, usize))
        ensures
            line.0@ == self@.line.buffer,
            line.1 == self@.line.cursor,
    {
        (&self.input, self.index)
    }

    /// Writes the words out again with the text of word `k` replaced, and
    /// puts the cursor behind that word.
    fn replace_token(&mut self, tokens: Vec<Token>, k: usize, replacement: String)
        requires
            tokens.deep_view() == parse(old(self)@.line.buffer),
            k < tokens.len(),
        ensures
            final(self)@.line.wf(),
            final(self)@.line.buffer == assemble(old(self)@.line.replaced(k as int, replacement@)),
            final(self)@.line.cursor == assemble(
                old(self)@.line.replaced(k as int, replacement@).take(k + 1),
            ).len(),
            final(self)@.state == old(self)@.state,
            final(self)@.completions == old(self)@.completions,
            final(self).suggesters() == old(self).suggesters(),
    {
        let ghost words = old(self)@.line.replaced(k as int, replacement@);
        let mut tokens = tokens;
        tokens[k].set_contents(replacement);
        assert(tokens.deep_view() =~= words);
        let head = Token::assemble_first(&tokens, k + 1);
        let line = Token::assemble_tokens(&tokens);
        proof {
            lemma_assemble_prefix(words, k + 1);
        }
        self.input = line;
        self.index = head.len();
    }

    /// Completes the word under the cursor to `suggestion`. Without a
    /// suggestion, or without a word under the cursor, nothing changes.
    pub fn complete_with(&mut self, suggestion: Option<String>)
        requires
            old(self)@.line.wf(),
        ensures
            final(self)@.line.wf(),
            final(self).suggesters() == old(self).suggesters(),
            final(self)@ == (CmdInputView {
                line: match suggestion {
                    Some(replacement) => old(self)@.line.complete(replacement@),
                    None => old(self)@.line,
                },
                ..old(self)@
            }),
    {
        match suggestion {
            Some(replacement) => {
                let tokens = Token::parse_input(&self.input);
                match find_active(&tokens, self.index) {
                    Some(k) => {
                        proof {
                            assert(self@.line.is_active(k as int));
                            lemma_active_unique(self@.line, k as int, self@.line.active());
                        }
                        self.replace_token(tokens, k, replacement);
                    },
                    None => {
                        assert(!self@.line.has_active());
                    },
                }
            },
            None => {},
        }
    }

    /// Takes one candidate for the word under the cursor, and puts it in the
    /// word's place.
    fn complete(&mut self)
        requires
            old(self)@.line.wf(),
        ensures
            final(self)@.line.wf(),
            final(self).suggesters().len() == old(self).suggesters().len(),
            old(self).suggesters().len() == 0 && (old(self)@.state == CompletionState::Idle
                || old(self)@.completions.should_refresh) ==> final(self)@.line == old(self)@.line,
            old(self)@.completion_step(final(self)@),
    {
        let tokens = Token::parse_input(&self.input);
        match find_active(&tokens, self.index) {
            Some(k) => {
                proof {
                    assert(self@.line.is_active(k as int));
                    lemma_active_unique(self@.line, k as int, self@.line.active());
                }
                if self.state == CompletionState::Idle {
                    self.tab_handler.refresh();
                }
                let word = tokens[k].get_contents().to_owned();
                let suggestion = self.tab_handler.get_suggestion(&word);
                match suggestion {
                    Some(replacement) => {
                        self.replace_token(tokens, k, replacement);
                    },
                    None => {},
                }
            },
            None => {
                assert(!self@.line.has_active());
            },
        }
        self.state = CompletionState::Cycling;
    }

    /// The bytes that paint the line behind a prompt of `prompt_len` cells in
    /// row `row`, counted from one. There are none if the row or the
    /// cursor's column is beyond what the terminal counts in sixteen bits.
    pub fn paint(&self, row: usize, prompt_len: usize) -> (result: Result<Vec<u8>, YeeshError>)
        ensures
            result is Ok <==> row <= u16::MAX && prompt_len + self@.line.cursor + 1 <= u16::MAX,
            result matches Ok(bytes) ==> bytes@ == rendered(
                row as nat,
                self@.line.buffer,
                self@.line.cursor as nat,
                prompt_len as nat,
            ),
    {
        if row > 0xFFFF || prompt_len >= 0xFFFF || self.index >= 0xFFFF - prompt_len {
            Err(YeeshError::new("Cursor position out of range"))
        } else {
            Ok(render_line(row, &self.input, self.index, prompt_len))
        }
    }

    /// Paints the line on `out`, behind a prompt of `prompt_len` cells in the
    /// row in which `out` says its cursor stands.
    ///
    /// What is written is what `paint` gives for that row. The call fails
    /// where `paint` fails and where `out` refuses the bytes; so it fails
    /// wherever the cursor's column is beyond what the terminal counts,
    /// whatever `out` says.
    pub fn render_line<U>(&mut self, out: &mut U, prompt_len: usize) -> (result: Result<
        (),
        YeeshError,
    >) where U: IoWriteAlias + DetectCursorPosAlias
        ensures
            final(self)@ == old(self)@,
            final(self).suggesters() == old(self).suggesters(),
            prompt_len + old(self)@.line.cursor + 1 > u16::MAX ==> result is Err,
    {
        let position = out.get_cursor_pos();
        let bytes = match self.paint(position.1, prompt_len) {
            Ok(bytes) => bytes,
            Err(error) => {
                return Err(error);
            },
        };
        match out.write(bytes.as_slice()) {
            Ok(_) => Ok(()),
            Err(error) => Err(error),
        }
    }

    /// Applies one key to the line.
    ///
    /// The tab character asks for completion of the word under the cursor;
    /// every other key edits the line or moves the cursor. A completion that
    /// asks the sources anew leaves the line as it is where there is no
    /// source to ask.
    pub fn insert(&mut self, key: Key)
        requires
            old(self)@.line.wf(),
        ensures
            final(self)@.line.wf(),
            key == Key::Char('\t') ==> old(self)@.completion_step(final(self)@),
            key != Key::Char('\t') ==> final(self)@ == old(self)@.after_key(key),
            key != Key::Char('\t') ==> final(self).suggesters() == old(self).suggesters(),
            final(self).suggesters().len() == old(self).suggesters().len(),
            old(self).suggesters().len() == 0 && (old(self)@.state == CompletionState::Idle
                || old(self)@.completions.should_refresh) && key == Key::Char('\t')
                ==> final(self)@.line == old(self)@.line,
    {
        match key {
            Key::Char(c) => {
                if c == '\t' {
                    self.complete();
                } else {
                    self.input.insert(self.index, c);
                    let len = self.input.len();
                    self.index += 1;
                    if self.index == len {
                        self.input.push(' ');
                    }
                    self.state = CompletionState::Idle;
                }
            },
            Key::Backspace => {
                if self.index > 0 {
                    self.index -= 1;
                    self.input.remove(self.index);
                }
                self.state = CompletionState::Idle;
            },
            Key::Left => {
                if self.index != 0 {
                    self.index -= 1;
                }
            },
            Key::Right => {
                if self.index != self.input.len() {
                    self.index += 1;
                }
            },
            Key::Other => {},
        }
    }

    /// Empties the line. The completion state stays as it is.
    pub fn clear(&mut self)
        ensures
            final(self)@ == (CmdInputView {
                line: Line { buffer: Seq::empty(), cursor: 0 },
                ..old(self)@
            }),
            final(self)@.line.wf(),
            final(self).suggesters() == old(self).suggesters(),
    {
        self.index = 0;
        self.input.clear();
    }

    /// The words of the line, without their quotes: the command and its
    /// arguments.
    pub fn get_cmd(&self) -> (cmd: Vec<String>)
        ensures
            cmd.deep_view() == words(parse(self@.line.buffer)),
    {
        let tokens = Token::parse_input(&self.input);
        let ghost views = tokens.deep_view();
        let mut cmd: Vec<String> = Vec::new();
        let mut i: usize = 0;
        while i < tokens.len()
            invariant
                i <= tokens.len(),
                views == tokens.deep_view(),
                cmd.deep_view() == words(views.take(i as int)),
            decreases tokens.len() - i,
        {
            assert(views[i as int] == tokens[i as int]@);
            let ghost before = cmd.deep_view();
            let word = tokens[i].get_contents().to_owned();
            cmd.push(word);
            assert(cmd.deep_view() =~= before.push(word@));
            assert(words(views.take(i + 1)) =~= words(views.take(i as int)).push(word@));
            i += 1;
        }
        assert(views.take(tokens.len() as int) =~= views);
        cmd
    }
}

/// The texts of the words.
pub open spec fn words(tokens: Seq<TokenView>) -> Seq<Seq<char>> {
    Seq::new(tokens.len(), |i: int| tokens[i].contents)
}

} // verus!
