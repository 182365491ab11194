//! Pattern text to tokens (the lexer), and tokens to an automaton (the
//! parser, which drives the graph builder).
use vstd::prelude::*;

use crate::graph::{Graph, GraphView, NodeIndex};

verus! {

/// A set of characters: the literals, and inclusive ranges `(first, last)`.
#[derive(Debug, Clone, PartialEq, Eq)]
pub struct CharClass {
    pub chars: Vec<char>,
    pub ranges: Vec<(char, char)>,
}

/// The label of a consuming edge.
#[derive(PartialEq, Eq, Debug)]
pub enum CharCost {
    Singleton(char),
    Dot,
    Class(CharClass),
}

/// A token of a pattern.
#[derive(PartialEq, Eq, Debug, Clone, Copy, Structural)]
pub enum Lexeme {
    Literal(char),
    OpenParen,
    CloseParen,
    OpenBracket,
    CloseBracket,
    Star,
    Question,
    Plus,
    Dot,
    Bar,
    Builtin(char),
    Range(char, char),
}

/// Why a pattern could not be split into tokens.
#[derive(PartialEq, Eq, Debug, Clone, Copy, Structural)]
pub enum LexError {
    /// A `-` in a class with nothing before it.
    RangeWithoutStart,
    /// A `-` right after a range.
    RangeAfterRange,
    /// A `-` at the end of the pattern.
    RangeWithoutEnd,
    /// A `-` right before the `]` that closes the class.
    RangeBeforeClose,
    /// A `\` at the end of the pattern.
    DanglingEscape,
    /// The pattern ends inside a class.
    UnclosedClass,
}

/// Why a token sequence does not describe an automaton.
#[derive(PartialEq, Eq, Debug, Clone, Copy, Structural)]
pub enum SyntaxError {
    /// The token cannot stand where it stands (a quantifier with nothing
    /// before it, a `]` outside a class, a structural token inside one).
    UnexpectedToken(Lexeme),
    /// A `)` with no open group.
    UnmatchedClose,
    /// The tokens end while a group is open.
    UnclosedGroup,
    /// The tokens end inside a class.
    UnclosedClass,
}

/// Why a pattern could not be compiled: a lexical or a syntax error.
#[derive(PartialEq, Eq, Debug, Clone, Copy, Structural)]
pub enum RegexError {
    Lexical(LexError),
    Syntax(SyntaxError),
}

/// What an edge label accepts, as mathematical values.
pub enum Label {
    Singleton(char),
    Dot,
    Class(Seq<char>, Seq<(char, char)>),
}

pub open spec fn class_contains(chars: Seq<char>, ranges: Seq<(char, char)>, c: char) -> bool {
    ||| chars.contains(c)
    ||| exists|k: int|
        0 <= k < ranges.len() && (#[trigger] ranges[k]).0 as u32 <= c as u32 <= ranges[k].1 as u32
}

impl Label {
    pub open spec fn accepts(self, c: char) -> bool {
        match self {
            Label::Singleton(x) => x == c,
            Label::Dot => true,
            Label::Class(chars, ranges) => class_contains(chars, ranges, c),
        }
    }
}

impl View for CharClass {
    type V = (Seq<char>, Seq<(char, char)>);

    open spec fn view(&self) -> (Seq<char>, Seq<(char, char)>) {
        (self.chars@, self.ranges@)
    }
}

impl View for CharCost {
    type V = Label;

    open spec fn view(&self) -> Label {
        match self {
            CharCost::Singleton(c) => Label::Singleton(*c),
            CharCost::Dot => Label::Dot,
            CharCost::Class(class) => Label::Class(class.chars@, class.ranges@),
        }
    }
}

pub open spec fn is_structural(c: char) -> bool {
    c == '(' || c == ')' || c == '[' || c == ']' || c == '*' || c == '?' || c == '+' || c == '.'
        || c == '|'
}

/// The token of `c` outside a class.
pub open spec fn token_of(c: char) -> Lexeme {
    if c == '(' {
        Lexeme::OpenParen
    } else if c == ')' {
        Lexeme::CloseParen
    } else if c == '[' {
        Lexeme::OpenBracket
    } else if c == ']' {
        Lexeme::CloseBracket
    } else if c == '*' {
        Lexeme::Star
    } else if c == '?' {
        Lexeme::Question
    } else if c == '+' {
        Lexeme::Plus
    } else if c == '.' {
        Lexeme::Dot
    } else if c == '|' {
        Lexeme::Bar
    } else {
        Lexeme::Literal(c)
    }
}

/// The character that a token was written with.
pub open spec fn char_of(t: Lexeme) -> char {
    match t {
        Lexeme::Bar => '|',
        Lexeme::Builtin(a) => a,
        Lexeme::CloseBracket => ']',
        Lexeme::CloseParen => ')',
        Lexeme::Dot => '.',
        Lexeme::Literal(a) => a,
        Lexeme::OpenBracket => '[',
        Lexeme::OpenParen => '(',
        Lexeme::Plus => '+',
        Lexeme::Question => '?',
        Lexeme::Star => '*',
        Lexeme::Range(_, _) => '-',
    }
}

/// The tokens of `s` from position `i` on, after `acc` was emitted, inside a
/// class or not.
pub open spec fn lex_from(s: Seq<char>, i: int, in_class: bool, acc: Seq<Lexeme>) -> Result<
    Seq<Lexeme>,
    LexError,
>
    decreases s.len() - i,
{
    if i >= s.len() || i < 0 {
        if in_class {
            Err(LexError::UnclosedClass)
        } else {
            Ok(acc)
        }
    } else {
        let c = s[i];
        if in_class {
            if c == ']' {
                lex_from(s, i + 1, false, acc.push(Lexeme::CloseBracket))
            } else if c == '-' {
                if acc.len() == 0 || acc.last() is OpenBracket {
                    Err(LexError::RangeWithoutStart)
                } else if acc.last() is Range {
                    Err(LexError::RangeAfterRange)
                } else if i + 1 >= s.len() {
                    Err(LexError::RangeWithoutEnd)
                } else if s[i + 1] == ']' {
                    Err(LexError::RangeBeforeClose)
                } else {
                    lex_from(
                        s,
                        i + 2,
                        true,
                        acc.drop_last().push(Lexeme::Range(char_of(acc.last()), s[i + 1])),
                    )
                }
            } else {
                lex_from(s, i + 1, true, acc.push(Lexeme::Literal(c)))
            }
        } else if c == '[' {
            lex_from(s, i + 1, true, acc.push(Lexeme::OpenBracket))
        } else if c == '\\' {
            if i + 1 >= s.len() {
                Err(LexError::DanglingEscape)
            } else if is_structural(s[i + 1]) {
                lex_from(s, i + 2, false, acc.push(Lexeme::Literal(s[i + 1])))
            } else {
                lex_from(s, i + 2, false, acc.push(Lexeme::Builtin(s[i + 1])))
            }
        } else {
            lex_from(s, i + 1, false, acc.push(token_of(c)))
        }
    }
}

/// The tokens of the pattern `s`.
pub open spec fn lex(s: Seq<char>) -> Result<Seq<Lexeme>, LexError> {
    lex_from(s, 0, false, Seq::empty())
}

impl Lexeme {
    /// The token of `character` outside a class.
    pub fn match_char(character: char) -> (r: Self)
        ensures
            r == token_of(character),
            r is Literal <==> !is_structural(character),
    {
        match character {
            '(' => Lexeme::OpenParen,
            ')' => Lexeme::CloseParen,
            '[' => Lexeme::OpenBracket,
            ']' => Lexeme::CloseBracket,
            '*' => Lexeme::Star,
            '?' => Lexeme::Question,
            '+' => Lexeme::Plus,
            '.' => Lexeme::Dot,
            '|' => Lexeme::Bar,
            a => Lexeme::Literal(a),
        }
    }

    /// The character that the token was written with (`-` for a range).
    pub fn lexeme_to_char(self) -> (r: char)
        ensures
            r == char_of(self),
    {
        match self {
            Lexeme::Bar => '|',
            Lexeme::Builtin(a) => a,
            Lexeme::CloseBracket => ']',
            Lexeme::CloseParen => ')',
            Lexeme::Dot => '.',
            Lexeme::Literal(a) => a,
            Lexeme::OpenBracket => '[',
            Lexeme::OpenParen => '(',
            Lexeme::Plus => '+',
            Lexeme::Question => '?',
            Lexeme::Star => '*',
            Lexeme::Range(_, _) => '-',
        }
    }

    pub fn set(&mut self, new_lex: Lexeme)
        ensures
            *final(self) == new_lex,
    {
        *self = new_lex;
    }
}

impl CharCost {
    pub fn fromchar(singleton: char) -> (r: Self)
        ensures
            r == CharCost::Singleton(singleton),
    {
        CharCost::Singleton(singleton)
    }

    /// Whether an edge with this label can read `c`.
    pub fn admits(&self, c: char) -> (r: bool)
        ensures
            r == self@.accepts(c),
    {
        match self {
            CharCost::Singleton(x) => *x == c,
            CharCost::Dot => true,
            CharCost::Class(class) => class.is_in(c),
        }
    }
}

impl CharClass {
    /// Membership: one of the literals, or within a range, ends included.
    pub fn is_in(&self, letter: char) -> (r: bool)
        ensures
            r == class_contains(self.chars@, self.ranges@, letter),
    {
        let mut i: usize = 0;
        while i < self.chars.len()
            invariant
                i <= self.chars.len(),
                forall|j: int| 0 <= j < i ==> self.chars@[j] != letter,
            decreases self.chars.len() - i,
        {
            if self.chars[i] == letter {
                assert(self.chars@[i as int] == letter);
                return true;
            }
            i = i + 1;
        }
        let mut k: usize = 0;
        while k < self.ranges.len()
            invariant
                k <= self.ranges.len(),
                forall|j: int| 0 <= j < i ==> self.chars@[j] != letter,
                i == self.chars.len(),
                forall|j: int|
                    0 <= j < k ==> !((#[trigger] self.ranges@[j]).0 as u32 <= letter as u32
                        <= self.ranges@[j].1 as u32),
            decreases self.ranges.len() - k,
        {
            let (first, last) = self.ranges[k];
            if first as u32 <= letter as u32 && letter as u32 <= last as u32 {
                return true;
            }
            k = k + 1;
        }
        false
    }

    pub fn new() -> (r: Self)
        ensures
            r.chars@ == Seq::<char>::empty(),
            r.ranges@ == Seq::<(char, char)>::empty(),
    {
        CharClass { chars: Vec::new(), ranges: Vec::new() }
    }

    pub fn plus_literal(&mut self, new_char: char)
        ensures
            final(self).chars@ == old(self).chars@.push(new_char),
            final(self).ranges@ == old(self).ranges@,
    {
        self.chars.push(new_char);
    }

    pub fn plus_range(&mut self, start_char: char, end_char: char)
        ensures
            final(self).chars@ == old(self).chars@,
            final(self).ranges@ == old(self).ranges@.push((start_char, end_char)),
    {
        self.ranges.push((start_char, end_char));
    }
}

/// The characters of `s`, in order.
pub(crate) fn chars_of(s: &str) -> (r: Vec<char>)
    ensures
        r@ == s@,
{
    let mut out: Vec<char> = Vec::new();
    for c in it: s.chars()
        invariant
            out@ == it.seq().take(it.index() as int),
    {
        out.push(c);
        assert(out@ =~= it.seq().take(it.index() + 1));
    }
    assert(out@ =~= s@);
    out
}

/// Splits a pattern into tokens, in one pass with one character of lookahead.
pub fn lexer(regex: String) -> (r: Result<Vec<Lexeme>, LexError>)
    ensures
        match r {
            Ok(tokens) => lex(regex@) == Ok::<Seq<Lexeme>, LexError>(tokens@),
            Err(e) => lex(regex@) == Err::<Seq<Lexeme>, LexError>(e),
        },
{
    let chars = chars_of(regex.as_str());
    let n = chars.len();
    let mut lex_string: Vec<Lexeme> = Vec::new();
    let mut in_class = false;
    let mut i: usize = 0;
    while i < n
        invariant
            i <= n,
            n == chars@.len(),
            chars@ == regex@,
            lex_from(chars@, i as int, in_class, lex_string@) == lex(regex@),
        decreases n - i,
    {
        let character = chars[i];
        if in_class {
            if character == ']' {
                in_class = false;
                lex_string.push(Lexeme::CloseBracket);
                i = i + 1;
            } else if character == '-' {
                if lex_string.len() == 0 {
                    return Err(LexError::RangeWithoutStart);
                }
                let last = lex_string[lex_string.len() - 1];
                match last {
                    Lexeme::OpenBracket => {
                        return Err(LexError::RangeWithoutStart);
                    },
                    Lexeme::Range(_, _) => {
                        return Err(LexError::RangeAfterRange);
                    },
                    _ => {},
                }
                if i + 1 >= n {
                    return Err(LexError::RangeWithoutEnd);
                }
                let next = chars[i + 1];
                if next == ']' {
                    return Err(LexError::RangeBeforeClose);
                }
                let ghost before = lex_string@;
                lex_string.pop();
                lex_string.push(Lexeme::Range(last.lexeme_to_char(), next));
                assert(lex_string@ =~= before.drop_last().push(
                    Lexeme::Range(char_of(before.last()), next),
                ));
                i = i + 2;
            } else {
                lex_string.push(Lexeme::Literal(character));
                i = i + 1;
            }
        } else if character == '[' {
            in_class = true;
            lex_string.push(Lexeme::OpenBracket);
            i = i + 1;
        } else if character == '\\' {
            if i + 1 >= n {
                return Err(LexError::DanglingEscape);
            }
            let next = chars[i + 1];
            match Lexeme::match_char(next) {
                Lexeme::Literal(_) => {
                    lex_string.push(Lexeme::Builtin(next));
                },
                _ => {
                    lex_string.push(Lexeme::Literal(next));
                },
            }
            i = i + 2;
        } else {
            lex_string.push(Lexeme::match_char(character));
            i = i + 1;
        }
    }
    if in_class {
        return Err(LexError::UnclosedClass);
    }
    Ok(lex_string)
}

/// The parser's construction mode.
pub enum ParserState {
    /// No quantifier target is pending.
    OutOfClassWithoutQual,
    /// Inside a class anchored at a handle, accumulating its characters.
    InClass(NodeIndex, CharClass),
    /// A quantifier that comes next applies to what was built from the handle.
    QualWithoutClass(NodeIndex),
}

/// The mode as mathematical values.
pub enum Mode {
    Plain,
    InClass(NodeIndex, Seq<char>, Seq<(char, char)>),
    Pending(NodeIndex),
}

impl View for ParserState {
    type V = Mode;

    open spec fn view(&self) -> Mode {
        match self {
            ParserState::OutOfClassWithoutQual => Mode::Plain,
            ParserState::InClass(a, class) => Mode::InClass(*a, class.chars@, class.ranges@),
            ParserState::QualWithoutClass(t) => Mode::Pending(*t),
        }
    }
}

/// Everything the parser holds between two tokens.
pub struct ParseView {
    pub graph: GraphView<Label>,
    pub groups: Seq<NodeIndex>,
    pub mode: Mode,
}

impl ParseView {
    pub open spec fn initial() -> Self {
        ParseView { graph: GraphView::fresh(), groups: Seq::empty(), mode: Mode::Plain }
    }

    /// Every handle the parser holds is a node of the graph.
    pub open spec fn valid(self) -> bool {
        &&& self.graph.wf()
        &&& forall|k: int|
            0 <= k < self.groups.len() ==> #[trigger] self.groups[k] < self.graph.edges.len()
        &&& match self.mode {
            Mode::Plain => true,
            Mode::InClass(a, _, _) => a < self.graph.edges.len(),
            Mode::Pending(t) => t < self.graph.edges.len(),
        }
    }

    /// The state after one token outside a class (`pending` is the
    /// quantifier target, if any).
    pub open spec fn step_outside(self, pending: Option<NodeIndex>, t: Lexeme) -> Result<
        ParseView,
        SyntaxError,
    > {
        let g = self.graph;
        match t {
            Lexeme::Bar => {
                let at = if self.groups.len() > 0 {
                    self.groups.last()
                } else {
                    0
                };
                Ok(ParseView { graph: g.open_branch(at), groups: self.groups, mode: Mode::Plain })
            },
            Lexeme::OpenParen => Ok(
                ParseView { graph: g, groups: self.groups.push(g.active), mode: Mode::Plain },
            ),
            Lexeme::OpenBracket => Ok(
                ParseView {
                    graph: g,
                    groups: self.groups,
                    mode: Mode::InClass(g.active, Seq::empty(), Seq::empty()),
                },
            ),
            Lexeme::CloseParen => {
                if self.groups.len() == 0 {
                    Err(SyntaxError::UnmatchedClose)
                } else {
                    let at = self.groups.last();
                    Ok(
                        ParseView {
                            graph: g.close_branches(at),
                            groups: self.groups.drop_last(),
                            mode: Mode::Pending(at),
                        },
                    )
                }
            },
            Lexeme::Literal(c) => {
                let g2 = g.concatenate(Label::Singleton(c));
                Ok(ParseView { graph: g2, groups: self.groups, mode: Mode::Pending(g2.active) })
            },
            Lexeme::Dot => {
                let g2 = g.concatenate(Label::Dot);
                Ok(ParseView { graph: g2, groups: self.groups, mode: Mode::Pending(g2.active) })
            },
            Lexeme::Builtin(_) => Ok(self),
            Lexeme::Plus => match pending {
                Some(at) => Ok(
                    ParseView { graph: g.make_repeatable(at), groups: self.groups, mode: Mode::Plain },
                ),
                None => Err(SyntaxError::UnexpectedToken(t)),
            },
            Lexeme::Question => match pending {
                Some(at) => Ok(
                    ParseView { graph: g.make_optional(at), groups: self.groups, mode: Mode::Plain },
                ),
                None => Err(SyntaxError::UnexpectedToken(t)),
            },
            Lexeme::Star => match pending {
                Some(at) => Ok(
                    ParseView {
                        graph: g.make_optional_repeatable(at),
                        groups: self.groups,
                        mode: Mode::Plain,
                    },
                ),
                None => Err(SyntaxError::UnexpectedToken(t)),
            },
            _ => Err(SyntaxError::UnexpectedToken(t)),
        }
    }

    /// The state after one token.
    pub open spec fn step(self, t: Lexeme) -> Result<ParseView, SyntaxError> {
        match self.mode {
            Mode::InClass(a, chars, ranges) => match t {
                Lexeme::CloseBracket => {
                    let g2 = self.graph.concatenate(Label::Class(chars, ranges));
                    Ok(ParseView { graph: g2, groups: self.groups, mode: Mode::Pending(g2.active) })
                },
                Lexeme::Literal(c) => Ok(
                    ParseView {
                        graph: self.graph,
                        groups: self.groups,
                        mode: Mode::InClass(a, chars.push(c), ranges),
                    },
                ),
                Lexeme::Range(x, y) => Ok(
                    ParseView {
                        graph: self.graph,
                        groups: self.groups,
                        mode: Mode::InClass(a, chars, ranges.push((x, y))),
                    },
                ),
                _ => Err(SyntaxError::UnexpectedToken(t)),
            },
            Mode::Plain => self.step_outside(None, t),
            Mode::Pending(at) => self.step_outside(Some(at), t),
        }
    }

    /// The automaton of the tokens `ts` from position `i` on.
    pub open spec fn parse_from(self, ts: Seq<Lexeme>, i: int) -> Result<
        GraphView<Label>,
        SyntaxError,
    >
        decreases ts.len() - i,
    {
        if i >= ts.len() || i < 0 {
            if self.groups.len() > 0 {
                Err(SyntaxError::UnclosedGroup)
            } else if self.mode is InClass {
                Err(SyntaxError::UnclosedClass)
            } else {
                Ok(self.graph)
            }
        } else {
            match self.step(ts[i]) {
                Ok(next) => next.parse_from(ts, i + 1),
                Err(e) => Err(e),
            }
        }
    }

    /// A step keeps every held handle in the graph, as the graph only grows.
    pub proof fn lemma_step_valid(self, t: Lexeme)
        requires
            self.valid(),
        ensures
            self.step(t) is Ok && self.step(t)->Ok_0.graph.wf() ==> self.step(t)->Ok_0.valid(),
    {
    }
}

/// The automaton of the token sequence `ts`.
pub open spec fn parse(ts: Seq<Lexeme>) -> Result<GraphView<Label>, SyntaxError> {
    ParseView::initial().parse_from(ts, 0)
}

/// Parsing is deterministic: the same tokens give the same automaton, with
/// the same nodes and the same edges in the same order.
pub proof fn lemma_parse_deterministic(first: Seq<Lexeme>, second: Seq<Lexeme>)
    requires
        first == second,
    ensures
        parse(first) == parse(second),
        parse(first) is Ok ==> parse(first)->Ok_0.edges == parse(second)->Ok_0.edges,
{
}

/// The automaton of the pattern `s`.
pub open spec fn compile_pattern(s: Seq<char>) -> Result<GraphView<Label>, RegexError> {
    match lex(s) {
        Err(e) => Err(RegexError::Lexical(e)),
        Ok(ts) => match parse(ts) {
            Ok(g) => Ok(g),
            Err(e) => Err(RegexError::Syntax(e)),
        },
    }
}

impl ParserState {
    /// Inside a class, adds `new_char` to it; otherwise does nothing.
    fn add_cost(&mut self, new_char: char)
        ensures
            final(self)@ == match old(self)@ {
                Mode::InClass(a, chars, ranges) => Mode::InClass(a, chars.push(new_char), ranges),
                m => m,
            },
    {
        match self {
            ParserState::InClass(_, a) => {
                a.plus_literal(new_char);
            },
            _ => {},
        }
    }

    /// Inside a class, adds the range to it; otherwise does nothing.
    fn add_cost_range(&mut self, start_char: char, end_char: char)
        ensures
            final(self)@ == match old(self)@ {
                Mode::InClass(a, chars, ranges) => Mode::InClass(
                    a,
                    chars,
                    ranges.push((start_char, end_char)),
                ),
                m => m,
            },
    {
        match self {
            ParserState::InClass(_, a) => {
                a.plus_range(start_char, end_char);
            },
            _ => {},
        }
    }
}

pub open spec fn mode_of(pending: Option<NodeIndex>) -> Mode {
    match pending {
        Some(t) => Mode::Pending(t),
        None => Mode::Plain,
    }
}

/// One token outside a class; `pending` is the quantifier target, if any.
fn step_outside(
    graph: &mut Graph<CharCost>,
    group_starts: &mut Vec<NodeIndex>,
    pending: Option<NodeIndex>,
    lexeme: Lexeme,
) -> (r: Result<ParserState, SyntaxError>)
    requires
        (ParseView { graph: old(graph)@, groups: old(group_starts)@, mode: mode_of(pending) }).valid(),
    ensures
        match (ParseView {
            graph: old(graph)@,
            groups: old(group_starts)@,
            mode: mode_of(pending),
        }).step_outside(pending, lexeme) {
            Ok(next) => r is Ok && next == (ParseView {
                graph: final(graph)@,
                groups: final(group_starts)@,
                mode: r->Ok_0@,
            }),
            Err(e) => r == Err::<ParserState, SyntaxError>(e),
        },
        final(graph)@.wf(),
{
    match lexeme {
        Lexeme::Bar => {
            let at = if group_starts.len() > 0 {
                group_starts[group_starts.len() - 1]
            } else {
                0
            };
            graph.add_junction(at);
            proof {
                assert(old(graph)@.open_branch(at).wf());
            }
            Ok(ParserState::OutOfClassWithoutQual)
        },
        Lexeme::OpenParen => {
            group_starts.push(graph.active);
            Ok(ParserState::OutOfClassWithoutQual)
        },
        Lexeme::OpenBracket => {
            let class = CharClass::new();
            Ok(ParserState::InClass(graph.active, class))
        },
        Lexeme::CloseParen => {
            if let Some(start) = group_starts.pop() {
                graph.close_junction(start);
                Ok(ParserState::QualWithoutClass(start))
            } else {
                Err(SyntaxError::UnmatchedClose)
            }
        },
        Lexeme::Literal(character) => {
            graph.add_cost(CharCost::fromchar(character));
            Ok(ParserState::QualWithoutClass(graph.active))
        },
        Lexeme::Dot => {
            graph.add_cost(CharCost::Dot);
            Ok(ParserState::QualWithoutClass(graph.active))
        },
        Lexeme::Builtin(_) => {
            // Shorthand classes are recognised but not expanded.
            match pending {
                Some(t) => Ok(ParserState::QualWithoutClass(t)),
                None => Ok(ParserState::OutOfClassWithoutQual),
            }
        },
        Lexeme::Plus => match pending {
            Some(start) => {
                graph.one_or_more(start);
                Ok(ParserState::OutOfClassWithoutQual)
            },
            None => Err(SyntaxError::UnexpectedToken(lexeme)),
        },
        Lexeme::Question => match pending {
            Some(start) => {
                graph.zero_or_one(start);
                Ok(ParserState::OutOfClassWithoutQual)
            },
            None => Err(SyntaxError::UnexpectedToken(lexeme)),
        },
        Lexeme::Star => match pending {
            Some(start) => {
                graph.zero_or_more(start);
                Ok(ParserState::OutOfClassWithoutQual)
            },
            None => Err(SyntaxError::UnexpectedToken(lexeme)),
        },
        _ => Err(SyntaxError::UnexpectedToken(lexeme)),
    }
}

/// Builds the automaton of a token sequence.
pub fn parse_tokens(tokens: &Vec<Lexeme>) -> (r: Result<Graph<CharCost>, SyntaxError>)
    ensures
        match parse(tokens@) {
            Ok(g) => r is Ok && r->Ok_0@ == g,
            Err(e) => r == Err::<Graph<CharCost>, SyntaxError>(e),
        },
        r is Ok ==> r->Ok_0@.wf(),
{
    let mut group_starts: Vec<NodeIndex> = Vec::new();
    let mut state = ParserState::OutOfClassWithoutQual;
    let mut graph = Graph::new();
    let mut i: usize = 0;
    while i < tokens.len()
        invariant
            i <= tokens.len(),
            (ParseView { graph: graph@, groups: group_starts@, mode: state@ }).valid(),
            (ParseView { graph: graph@, groups: group_starts@, mode: state@ }).parse_from(
                tokens@,
                i as int,
            ) == parse(tokens@),
        decreases tokens.len() - i,
    {
        let lexeme = tokens[i];
        let ghost cur = ParseView { graph: graph@, groups: group_starts@, mode: state@ };
        proof {
            cur.lemma_step_valid(lexeme);
        }
        match state {
            ParserState::InClass(anchor, class) => {
                match lexeme {
                    Lexeme::CloseBracket => {
                        graph.add_cost(CharCost::Class(class));
                        state = ParserState::QualWithoutClass(graph.active);
                    },
                    Lexeme::Literal(new_char) => {
                        state = ParserState::InClass(anchor, class);
                        state.add_cost(new_char);
                    },
                    Lexeme::Range(start_char, end_char) => {
                        state = ParserState::InClass(anchor, class);
                        state.add_cost_range(start_char, end_char);
                    },
                    _ => {
                        return Err(SyntaxError::UnexpectedToken(lexeme));
                    },
                }
            },
            ParserState::OutOfClassWithoutQual => {
                match step_outside(&mut graph, &mut group_starts, None, lexeme) {
                    Ok(next) => {
                        state = next;
                    },
                    Err(e) => {
                        return Err(e);
                    },
                }
            },
            ParserState::QualWithoutClass(target) => {
                match step_outside(&mut graph, &mut group_starts, Some(target), lexeme) {
                    Ok(next) => {
                        state = next;
                    },
                    Err(e) => {
                        return Err(e);
                    },
                }
            },
        }
        i = i + 1;
    }
    if group_starts.len() > 0 {
        return Err(SyntaxError::UnclosedGroup);
    }
    if let ParserState::InClass(_, _) = state {
        return Err(SyntaxError::UnclosedClass);
    }
    Ok(graph)
}

/// Compiles a pattern into its automaton.
pub fn parser(regex: String) -> (r: Result<Graph<CharCost>, RegexError>)
    ensures
        match compile_pattern(regex@) {
            Ok(g) => r is Ok && r->Ok_0@ == g,
            Err(e) => r == Err::<Graph<CharCost>, RegexError>(e),
        },
        r is Ok ==> r->Ok_0@.wf(),
{
    let lex_string = match lexer(regex) {
        Ok(tokens) => tokens,
        Err(e) => {
            return Err(RegexError::Lexical(e));
        },
    };
    match parse_tokens(&lex_string) {
        Ok(graph) => Ok(graph),
        Err(e) => Err(RegexError::Syntax(e)),
    }
}

} // verus!
