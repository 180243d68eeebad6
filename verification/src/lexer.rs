//! A streaming lexical analyzer: it scans a character sequence one character
//! at a time, tracking the zero-based row and column of the scan head, and
//! emits positioned lexemes. In the current token set only comment bodies
//! (introduced by `#` and terminated by a newline) are ever emitted, as
//! `Identifier` lexemes carrying the accumulated text.

use vstd::prelude::*;

verus! {

/// The scanner's sub-state: whether the next character is interpreted as
/// ordinary source text or as part of a comment body being accumulated.
#[derive(Debug)]
pub enum Mode {
    Normal,
    Comment,
}

/// The semantic classification of a lexeme's text.
#[derive(Debug, PartialEq)]
pub enum Token {
    Comma,
    Dot,
    Plus,
    Minus,
    Identifier(String),
}

/// A recognized token instance annotated with its source position.
#[derive(Debug, PartialEq)]
pub struct Lexeme {
    pub row: u32,
    pub column: u32,
    pub token: Token,
}

/// The scanner. `row` and `column` are the current position, updated once per
/// character consumed; `offset` is the column at which the token currently
/// being accumulated began; `buffer` holds the characters accumulated so far
/// while in `Comment` mode.
#[derive(Debug)]
pub struct Lexer {
    row: u32,
    column: u32,
    offset: u32,
    mode: Mode,
    buffer: Vec<char>,
}

/// Mathematical image of a `Token`.
#[verifier::ext_equal]
pub ghost enum TokenModel {
    Comma,
    Dot,
    Plus,
    Minus,
    Identifier(Seq<char>),
}

/// Mathematical image of a `Lexeme`.
#[verifier::ext_equal]
pub ghost struct LexemeModel {
    pub row: nat,
    pub column: nat,
    pub token: TokenModel,
}

/// Mathematical image of the scanner state.
#[verifier::ext_equal]
pub ghost struct LexerModel {
    pub row: nat,
    pub column: nat,
    pub offset: nat,
    pub mode: Mode,
    pub buffer: Seq<char>,
}

impl View for Token {
    type V = TokenModel;

    open spec fn view(&self) -> TokenModel {
        match self {
            Token::Comma => TokenModel::Comma,
            Token::Dot => TokenModel::Dot,
            Token::Plus => TokenModel::Plus,
            Token::Minus => TokenModel::Minus,
            Token::Identifier(text) => TokenModel::Identifier(text@),
        }
    }
}

impl View for Lexeme {
    type V = LexemeModel;

    open spec fn view(&self) -> LexemeModel {
        LexemeModel { row: self.row as nat, column: self.column as nat, token: self.token@ }
    }
}

impl View for Lexer {
    type V = LexerModel;

    closed spec fn view(&self) -> LexerModel {
        LexerModel {
            row: self.row as nat,
            column: self.column as nat,
            offset: self.offset as nat,
            mode: self.mode,
            buffer: self.buffer@,
        }
    }
}

/// The state a freshly created scanner is in.
pub open spec fn init_model() -> LexerModel {
    LexerModel { row: 0, column: 0, offset: 0, mode: Mode::Normal, buffer: Seq::empty() }
}

impl LexerModel {
    /// The scanner's internal invariant: outside of `Comment` mode the
    /// accumulation buffer is empty.
    pub open spec fn wf(self) -> bool {
        self.mode is Normal ==> self.buffer.len() == 0
    }
}

/// Position update for one consumed character: a newline moves the scan head
/// to the start of the next row, any other character advances the column.
pub open spec fn locate_model(s: LexerModel, c: char) -> LexerModel {
    if c == '\n' {
        LexerModel { row: s.row + 1, column: 0, offset: s.offset, mode: s.mode, buffer: s.buffer }
    } else {
        LexerModel {
            row: s.row,
            column: s.column + 1,
            offset: s.offset,
            mode: s.mode,
            buffer: s.buffer,
        }
    }
}

/// The state after consuming one character: position is updated first, then
/// the character is classified under the current mode. In `Comment` mode the
/// character is accumulated, and a newline ends the comment; in `Normal` mode
/// a `#` starts a comment at the updated column, and every other character
/// (whitespace included) leaves the state of the scan untouched beyond the
/// position update.
pub open spec fn step_model(s: LexerModel, c: char) -> LexerModel {
    let l = locate_model(s, c);
    match s.mode {
        Mode::Comment => {
            if c == '\n' {
                LexerModel {
                    row: l.row,
                    column: l.column,
                    offset: s.offset,
                    mode: Mode::Normal,
                    buffer: Seq::empty(),
                }
            } else {
                LexerModel {
                    row: l.row,
                    column: l.column,
                    offset: s.offset,
                    mode: Mode::Comment,
                    buffer: s.buffer.push(c),
                }
            }
        },
        Mode::Normal => {
            if c == '#' {
                LexerModel {
                    row: l.row,
                    column: l.column,
                    offset: l.column,
                    mode: Mode::Comment,
                    buffer: s.buffer,
                }
            } else {
                l
            }
        },
    }
}

/// The lexeme emitted by consuming one character, if any: only a newline seen
/// in `Comment` mode emits, an `Identifier` whose text is the accumulated
/// buffer including that newline, positioned at the updated row and at the
/// column where the comment's `#` stood.
pub open spec fn emit_model(s: LexerModel, c: char) -> Option<LexemeModel> {
    if s.mode is Comment && c == '\n' {
        Some(
            LexemeModel {
                row: locate_model(s, c).row,
                column: s.offset,
                token: TokenModel::Identifier(s.buffer.push(c)),
            },
        )
    } else {
        None
    }
}

/// The full sequence of lexemes produced by scanning `cs` from state `s`.
pub open spec fn lex_model(s: LexerModel, cs: Seq<char>) -> Seq<LexemeModel>
    decreases cs.len(),
{
    if cs.len() == 0 {
        Seq::empty()
    } else {
        let rest = lex_model(step_model(s, cs[0]), cs.drop_first());
        match emit_model(s, cs[0]) {
            Some(l) => seq![l] + rest,
            None => rest,
        }
    }
}

/// The scanner state left behind by scanning `cs` from state `s`.
pub open spec fn run_model(s: LexerModel, cs: Seq<char>) -> LexerModel
    decreases cs.len(),
{
    if cs.len() == 0 {
        s
    } else {
        run_model(step_model(s, cs[0]), cs.drop_first())
    }
}

/// The sequence of mathematical images of a sequence of lexemes.
pub open spec fn views_of(lexemes: Seq<Lexeme>) -> Seq<LexemeModel> {
    lexemes.map_values(|l: Lexeme| l@)
}

/// One scanning step keeps the scanner's internal invariant: the buffer is
/// cleared whenever the scanner returns to normal mode.
pub proof fn lemma_step_preserves_wf(s: LexerModel, c: char)
    ensures
        s.wf() ==> step_model(s, c).wf(),
{
}

/// A whole scan keeps the scanner's internal invariant.
pub proof fn lemma_run_preserves_wf(s: LexerModel, cs: Seq<char>)
    ensures
        s.wf() ==> run_model(s, cs).wf(),
    decreases cs.len(),
{
    if cs.len() != 0 {
        lemma_step_preserves_wf(s, cs[0]);
        lemma_run_preserves_wf(step_model(s, cs[0]), cs.drop_first());
    }
}

/// An input that contains no `#`, scanned in normal mode, yields no lexemes:
/// in particular whitespace-only input yields none, since `#` is not
/// whitespace.
pub proof fn lemma_no_hash_no_lexemes(s: LexerModel, cs: Seq<char>)
    requires
        s.mode is Normal,
        forall|i: int| 0 <= i < cs.len() ==> cs[i] != '#',
    ensures
        lex_model(s, cs) == Seq::<LexemeModel>::empty(),
    decreases cs.len(),
{
    if cs.len() != 0 {
        let rest = cs.drop_first();
        assert(forall|i: int| 0 <= i < rest.len() ==> #[trigger] rest[i] == cs[i + 1]);
        lemma_no_hash_no_lexemes(step_model(s, cs[0]), rest);
    }
}

/// An input that contains no newline yields no lexemes, whatever state the
/// scan starts in: a comment is emitted only when its terminating newline is
/// seen, so in particular a comment left open at the end of the input is
/// never emitted.
pub proof fn lemma_no_newline_no_lexemes(s: LexerModel, cs: Seq<char>)
    requires
        forall|i: int| 0 <= i < cs.len() ==> cs[i] != '\n',
    ensures
        lex_model(s, cs) == Seq::<LexemeModel>::empty(),
    decreases cs.len(),
{
    if cs.len() != 0 {
        let rest = cs.drop_first();
        assert(forall|i: int| 0 <= i < rest.len() ==> #[trigger] rest[i] == cs[i + 1]);
        lemma_no_newline_no_lexemes(step_model(s, cs[0]), rest);
    }
}

/// Empty input yields no lexemes, whatever state the scan starts in.
pub proof fn lemma_empty_input_no_lexemes(s: LexerModel)
    ensures
        lex_model(s, Seq::<char>::empty()) == Seq::<LexemeModel>::empty(),
{
}

/// Scanning is a function of the starting state and the input alone: two
/// scanners that both start in the freshly-initialized state produce the
/// same lexeme sequence on the same input, so separate fresh instances leak
/// no state into one another's results.
pub proof fn lemma_fresh_scans_agree(first: LexerModel, second: LexerModel, cs: Seq<char>)
    requires
        first == init_model(),
        second == init_model(),
    ensures
        lex_model(first, cs) == lex_model(second, cs),
{
}

/// Every emitted lexeme lies on a row beyond the row the scan started on,
/// and the rows of the emitted lexemes strictly increase: each comment ends
/// on its own newline, so no two lexemes share a row.
pub proof fn lemma_rows_strictly_increase(s: LexerModel, cs: Seq<char>)
    ensures
        forall|k: int|
            0 <= k < lex_model(s, cs).len() ==> (#[trigger] lex_model(s, cs)[k]).row > s.row,
        forall|i: int, j: int|
            0 <= i < j < lex_model(s, cs).len() ==> lex_model(s, cs)[i].row < lex_model(
                s,
                cs,
            )[j].row,
    decreases cs.len(),
{
    if cs.len() != 0 {
        let c = cs[0];
        let s2 = step_model(s, c);
        let rest = lex_model(s2, cs.drop_first());
        let out = lex_model(s, cs);
        lemma_rows_strictly_increase(s2, cs.drop_first());
        assert(s2.row >= s.row);
        match emit_model(s, c) {
            Some(l) => {
                assert(out == seq![l] + rest);
                assert(out[0] == l);
                assert(forall|k: int| 1 <= k < out.len() ==> out[k] == rest[k - 1]);
                assert(l.row == s.row + 1);
                assert(s2.row == s.row + 1);
            },
            None => {
                assert(out == rest);
            },
        }
    }
}

/// Relies on String::push: appends the given character to the end of the string.
#[verifier::external_body]
fn push_char(s: &mut String, c: char)
    ensures
        final(s)@ == old(s)@.push(c),
{
    s.push(c)
}

impl Lexer {
    /// Create a scanner in the initial state: position at the origin, normal
    /// mode, empty accumulation buffer.
    pub fn new() -> (lexer: Lexer)
        ensures
            lexer@ == init_model(),
            lexer@.wf(),
    {
        let lexer = Lexer {
            row: 0,
            column: 0,
            offset: 0,
            mode: Mode::Normal,
            buffer: Vec::new(),
        };
        proof {
            assert(lexer@ =~= init_model());
        }
        lexer
    }

    /// Scan the whole character sequence and return the lexemes it contains,
    /// in the order their tokens complete. The result and the final scanner
    /// state are exactly those of the mathematical scan `lex_model` /
    /// `run_model` from the state the scanner was in when called. Whitespace
    /// and unrecognized characters alike produce nothing; a comment is
    /// emitted only when its terminating newline is seen, so a comment still
    /// open when the input ends is not emitted.
    #[verifier::loop_isolation(false)]
    pub fn lex(&mut self, source: Vec<char>) -> (lexemes: Vec<Lexeme>)
        requires
            old(self)@.row + source@.len() <= u32::MAX,
            old(self)@.column + source@.len() <= u32::MAX,
        ensures
            views_of(lexemes@) == lex_model(old(self)@, source@),
            final(self)@ == run_model(old(self)@, source@),
            old(self)@.wf() ==> final(self)@.wf(),
    {
        proof {
            lemma_run_preserves_wf(self@, source@);
        }
        let mut lexemes: Vec<Lexeme> = Vec::new();
        let n = source.len();
        proof {
            assert(source@.skip(0) =~= source@);
            assert(views_of(lexemes@) + lex_model(self@, source@) =~= lex_model(self@, source@));
        }
        for i in 0..n
            invariant
                self@.row <= old(self)@.row + i,
                self@.column <= old(self)@.column + i,
                views_of(lexemes@) + lex_model(self@, source@.skip(i as int)) =~= lex_model(
                    old(self)@,
                    source@,
                ),
                run_model(self@, source@.skip(i as int)) == run_model(old(self)@, source@),
        {
            let c = source[i];
            let ghost prev = self@;
            let ghost remaining = source@.skip(i as int);
            self.locate(c);
            match self.mode {
                Mode::Comment => {
                    self.buffer.push(c);
                    if c == '\n' {
                        let lexeme = self.as_comment();
                        proof {
                            assert(lexeme@ =~= emit_model(prev, c).unwrap());
                        }
                        lexemes.push(lexeme);
                    }
                },
                Mode::Normal => {
                    if c == '#' {
                        self.offset = self.column;
                        self.mode = Mode::Comment;
                    }
                },
            };
            proof {
                assert(self@ =~= step_model(prev, c));
                assert(remaining[0] == c);
                assert(remaining.drop_first() =~= source@.skip(i + 1));
                assert(views_of(lexemes@) + lex_model(self@, source@.skip(i + 1)) =~= lex_model(
                    old(self)@,
                    source@,
                ));
            }
        }
        proof {
            assert(source@.skip(n as int) =~= Seq::<char>::empty());
        }
        lexemes
    }

    /// Advance the scan position over one character.
    fn locate(&mut self, c: char)
        requires
            old(self)@.row < u32::MAX,
            old(self)@.column < u32::MAX,
        ensures
            final(self)@ == locate_model(old(self)@, c),
    {
        if c == '\n' {
            self.row = self.row + 1;
            self.column = 0;
        } else {
            self.column = self.column + 1;
        }
        proof {
            assert(self@ =~= locate_model(old(self)@, c));
        }
    }

    /// Close the comment currently being accumulated: build an `Identifier`
    /// lexeme from the buffered text, positioned at the current row and at
    /// the column where the comment began, then clear the buffer and return
    /// to normal mode.
    fn as_comment(&mut self) -> (lexeme: Lexeme)
        ensures
            lexeme@ == (LexemeModel {
                row: old(self)@.row,
                column: old(self)@.offset,
                token: TokenModel::Identifier(old(self)@.buffer),
            }),
            final(self)@ == (LexerModel {
                row: old(self)@.row,
                column: old(self)@.column,
                offset: old(self)@.offset,
                mode: Mode::Normal,
                buffer: Seq::empty(),
            }),
    {
        let mut text = String::new();
        let n = self.buffer.len();
        for i in 0..n
            invariant
                n == self.buffer.len(),
                text@ =~= self.buffer@.take(i as int),
                self == old(self),
        {
            push_char(&mut text, self.buffer[i]);
        }
        proof {
            assert(text@ =~= self.buffer@);
        }
        let lexeme = Lexeme { row: self.row, column: self.offset, token: Token::Identifier(text) };
        self.buffer.clear();
        self.mode = Mode::Normal;
        proof {
            assert(lexeme@ =~= (LexemeModel {
                row: old(self)@.row,
                column: old(self)@.offset,
                token: TokenModel::Identifier(old(self)@.buffer),
            }));
            assert(self@ =~= (LexerModel {
                row: old(self)@.row,
                column: old(self)@.column,
                offset: old(self)@.offset,
                mode: Mode::Normal,
                buffer: Seq::empty(),
            }));
        }
        lexeme
    }
}

/// The character stream that a sequence of source lines stands for: the
/// lines in order, each followed by a newline character, whether or not one
/// was present where the lines came from.
pub open spec fn stream_of_lines(lines: Seq<Seq<char>>) -> Seq<char>
    decreases lines.len(),
{
    if lines.len() == 0 {
        Seq::empty()
    } else {
        lines[0] + seq!['\n'] + stream_of_lines(lines.drop_first())
    }
}

/// Flatten source lines into the single character stream the scanner
/// consumes, appending a newline after every line.
#[verifier::loop_isolation(false)]
pub fn chars_of_lines(lines: &Vec<String>) -> (stream: Vec<char>)
    ensures
        stream@ == stream_of_lines(lines@.map_values(|l: String| l@)),
{
    let ghost all = lines@.map_values(|l: String| l@);
    let mut stream: Vec<char> = Vec::new();
    let n = lines.len();
    proof {
        assert(all.skip(0) =~= all);
        assert(stream@ + stream_of_lines(all) =~= stream_of_lines(all));
    }
    for i in 0..n
        invariant
            n == lines@.len(),
            stream@ + stream_of_lines(all.skip(i as int)) =~= stream_of_lines(all),
    {
        let line: &str = lines[i].as_str();
        let len = line.unicode_len();
        let ghost before = stream@;
        for j in 0..len
            invariant
                len == line@.len(),
                stream@ =~= before + line@.take(j as int),
        {
            stream.push(line.get_char(j));
        }
        stream.push('\n');
        proof {
            assert(line@.take(len as int) =~= line@);
            assert(all.skip(i as int)[0] == all[i as int]);
            assert(all.skip(i as int).drop_first() =~= all.skip(i + 1));
            assert(stream@ + stream_of_lines(all.skip(i + 1)) =~= stream_of_lines(all));
        }
    }
    proof {
        assert(all.skip(n as int) =~= Seq::<Seq<char>>::empty());
    }
    stream
}

} // verus!
