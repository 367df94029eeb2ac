//! Character classes, the expansion resolver and the token assembler.
//!
//! A line is read once, left to right. Each character is classified, the
//! classification is read in the light of the active quote and of a pending
//! expansion, and resolved text is merged into the word being assembled. A
//! word ends at whitespace outside quotes and at the end of the line.

use crate::command::environment::{Env, Environment, ExpansionError, Fault};
use vstd::prelude::*;
use vstd::std_specs::iter::IteratorSpec;
use vstd::string::*;

verus! {

/// Whether `c` carries the Unicode property `White_Space`.
pub open spec fn is_white_space(c: char) -> bool {
    let n: u32 = c as u32;
    ||| 0x0009 <= n <= 0x000D
    ||| n == 0x0020
    ||| n == 0x0085
    ||| n == 0x00A0
    ||| n == 0x1680
    ||| 0x2000 <= n <= 0x200A
    ||| n == 0x2028
    ||| n == 0x2029
    ||| n == 0x202F
    ||| n == 0x205F
    ||| n == 0x3000
}

/// Whether `c` is whitespace, that is, carries the Unicode property `White_Space`.
pub fn is_whitespace(c: char) -> (b: bool)
    ensures
        b == is_white_space(c),
{
    let n: u32 = c as u32;
    (0x0009 <= n && n <= 0x000D) || n == 0x0020 || n == 0x0085 || n == 0x00A0 || n == 0x1680 || (
    0x2000 <= n && n <= 0x200A) || n == 0x2028 || n == 0x2029 || n == 0x202F || n == 0x205F || n
        == 0x3000
}

/// `String::push` of the standard library, taken on trust: it appends the one
/// character to the end of the string and changes nothing else.
pub assume_specification[ String::push ](s: &mut String, ch: char)
    ensures
        final(s)@ == old(s)@.push(ch),
;

/// A character that starts a substitution instead of being copied.
#[derive(PartialEq, Eq, Structural, Debug, Copy, Clone)]
pub enum SpecialChar {
    Dollar,
    Star,
    Tilde,
    Backslash,
}

/// A quote delimiter.
#[derive(PartialEq, Eq, Structural, Debug, Clone, Copy)]
pub enum ModifierChar {
    SingleQuote,
    DoubleQuote,
}

/// A character that ends a word outside quotes.
#[derive(PartialEq, Eq, Structural, Debug, Clone, Copy)]
pub enum Separator {
    Whitespace(char),
}

/// The one class that every character belongs to.
#[derive(PartialEq, Eq, Structural, Debug, Clone, Copy)]
pub enum CharClass {
    Ordinary,
    Quote(ModifierChar),
    Trigger(SpecialChar),
    Separator(Separator),
}

/// The class of `c`: triggers and quotes are recognised by the character
/// itself, separators by the `White_Space` property, and the rest is ordinary.
pub open spec fn class_of(c: char) -> CharClass {
    if c == '$' {
        CharClass::Trigger(SpecialChar::Dollar)
    } else if c == '*' {
        CharClass::Trigger(SpecialChar::Star)
    } else if c == '~' {
        CharClass::Trigger(SpecialChar::Tilde)
    } else if c == '\\' {
        CharClass::Trigger(SpecialChar::Backslash)
    } else if c == '\'' {
        CharClass::Quote(ModifierChar::SingleQuote)
    } else if c == '"' {
        CharClass::Quote(ModifierChar::DoubleQuote)
    } else if is_white_space(c) {
        CharClass::Separator(Separator::Whitespace(c))
    } else {
        CharClass::Ordinary
    }
}

impl SpecialChar {
    /// The character that stands for this trigger.
    pub open spec fn symbol(self) -> char {
        match self {
            SpecialChar::Dollar => '$',
            SpecialChar::Star => '*',
            SpecialChar::Tilde => '~',
            SpecialChar::Backslash => '\\',
        }
    }

    /// The character that stands for this trigger.
    pub fn name(&self) -> (c: char)
        ensures
            c == self.symbol(),
            class_of(c) == CharClass::Trigger(*self),
    {
        match self {
            SpecialChar::Dollar => '$',
            SpecialChar::Star => '*',
            SpecialChar::Tilde => '~',
            SpecialChar::Backslash => '\\',
        }
    }

    /// The trigger that `value` stands for, if it is one.
    pub fn try_from(value: char) -> (r: Result<SpecialChar, ()>)
        ensures
            match r {
                Ok(t) => class_of(value) == CharClass::Trigger(t) && t.symbol() == value,
                Err(_) => !(class_of(value) is Trigger),
            },
    {
        if value == '$' {
            Ok(SpecialChar::Dollar)
        } else if value == '*' {
            Ok(SpecialChar::Star)
        } else if value == '~' {
            Ok(SpecialChar::Tilde)
        } else if value == '\\' {
            Ok(SpecialChar::Backslash)
        } else {
            Err(())
        }
    }
}

impl ModifierChar {
    /// Inside single quotes no trigger is active; inside double quotes only
    /// `$` and the backslash are.
    pub open spec fn allows(self, special_char: SpecialChar) -> bool {
        self == ModifierChar::DoubleQuote && (special_char == SpecialChar::Dollar || special_char
            == SpecialChar::Backslash)
    }

    /// The character that stands for this quote.
    pub open spec fn symbol(self) -> char {
        match self {
            ModifierChar::SingleQuote => '\'',
            ModifierChar::DoubleQuote => '"',
        }
    }

    /// Whether `special_char` is active inside this quote.
    pub fn allows_special_char(&self, special_char: &SpecialChar) -> (b: bool)
        ensures
            b == self.allows(*special_char),
    {
        match self {
            ModifierChar::SingleQuote => false,
            ModifierChar::DoubleQuote => match special_char {
                SpecialChar::Dollar => true,
                SpecialChar::Backslash => true,
                _ => false,
            },
        }
    }

    /// The character that stands for this quote.
    pub fn name(&self) -> (c: char)
        ensures
            c == self.symbol(),
            class_of(c) == CharClass::Quote(*self),
    {
        match self {
            ModifierChar::SingleQuote => '\'',
            ModifierChar::DoubleQuote => '"',
        }
    }

    /// The quote that `value` stands for, if it is one.
    pub fn try_from(value: char) -> (r: Result<ModifierChar, ()>)
        ensures
            match r {
                Ok(m) => class_of(value) == CharClass::Quote(m) && m.symbol() == value,
                Err(_) => !(class_of(value) is Quote),
            },
    {
        if value == '\'' {
            Ok(ModifierChar::SingleQuote)
        } else if value == '"' {
            Ok(ModifierChar::DoubleQuote)
        } else {
            Err(())
        }
    }
}

impl Separator {
    /// The character that this separator was read from.
    pub open spec fn symbol(self) -> char {
        match self {
            Separator::Whitespace(c) => c,
        }
    }

    /// The character that this separator was read from.
    pub fn name(&self) -> (c: char)
        ensures
            c == self.symbol(),
    {
        match self {
            Separator::Whitespace(val) => *val,
        }
    }

    /// `value` as a separator, if it is whitespace.
    pub fn try_from(value: char) -> (r: Result<Separator, ()>)
        ensures
            match r {
                Ok(s) => is_white_space(value) && s == Separator::Whitespace(value),
                Err(_) => !is_white_space(value),
            },
    {
        if is_whitespace(value) {
            Ok(Separator::Whitespace(value))
        } else {
            Err(())
        }
    }
}

/// Classifies one character. The function is total and has no state.
pub fn classify(c: char) -> (class: CharClass)
    ensures
        class == class_of(c),
{
    if let Ok(t) = SpecialChar::try_from(c) {
        CharClass::Trigger(t)
    } else if let Ok(m) = ModifierChar::try_from(c) {
        CharClass::Quote(m)
    } else if let Ok(s) = Separator::try_from(c) {
        CharClass::Separator(s)
    } else {
        CharClass::Ordinary
    }
}

/// The characters of `text`, in order.
pub fn characters(text: &str) -> (list: Vec<char>)
    ensures
        list@ == text@,
{
    broadcast use vstd::string::group_string_axioms;

    let mut chars = text.chars();
    let mut list: Vec<char> = Vec::new();
    loop
        invariant
            list@ + chars.remaining() == text@,
            chars.decrease() is Some,
        ensures
            chars.remaining().len() == 0,
        decreases chars.decrease()->0,
    {
        match chars.next() {
            Some(c) => {
                list.push(c);
            },
            None => {
                break ;
            },
        }
    }
    assert(list@ =~= text@);
    list
}

/// What one word token is: its text, or the first failure met while it was assembled.
pub type Token = Result<Seq<char>, Fault>;

/// Mathematical value of a token handed out by the assembler.
pub open spec fn token_view(token: Result<String, ExpansionError>) -> Token {
    match token {
        Ok(text) => Ok(text@),
        Err(e) => Err(e@),
    }
}

/// Mathematical value of a list of tokens.
pub open spec fn tokens_view(tokens: Seq<Result<String, ExpansionError>>) -> Seq<Token> {
    Seq::new(tokens.len(), |i: int| token_view(tokens[i]))
}

/// The text that a trigger resolves to.
///
/// Where the active quote does not allow the trigger, the trigger stands for
/// itself. Otherwise `$` is the value of the variable named by `payload` (no
/// text when it is undefined), `~` is the home directory, `*` is itself, and a
/// backslash is the escaped `payload`: bare outside quotes, and inside double
/// quotes bare only for `"`, `\` and `$`, with the backslash kept before
/// anything else.
pub open spec fn expansion(
    trigger: SpecialChar,
    payload: Seq<char>,
    quote: Option<ModifierChar>,
    env: Env,
) -> Token {
    if quote is Some && !quote->0.allows(trigger) {
        Ok(seq![trigger.symbol()])
    } else {
        match trigger {
            SpecialChar::Dollar => Ok(env.value_of(payload)),
            SpecialChar::Star => Ok(seq!['*']),
            SpecialChar::Tilde => match env.home {
                Some(dir) => Ok(dir),
                None => Err(Fault::NoHomeDirectory),
            },
            SpecialChar::Backslash => if quote == Some(ModifierChar::DoubleQuote) && !(payload
                == seq!['"'] || payload == seq!['\\'] || payload == seq!['$']) {
                Ok(seq!['\\'] + payload)
            } else {
                Ok(payload)
            },
        }
    }
}

impl SpecialChar {
    /// Resolves this trigger with the text accumulated for it, under the active quote.
    pub fn expand(
        &self,
        expansion_buf: &str,
        modifier: &Option<ModifierChar>,
        env: &Environment,
    ) -> (r: Result<String, ExpansionError>)
        ensures
            token_view(r) == expansion(*self, expansion_buf@, *modifier, env@),
    {
        let allowed = match modifier {
            Some(active_mod) => active_mod.allows_special_char(self),
            None => true,
        };
        if !allowed {
            let mut text = String::new();
            text.push(self.name());
            assert(text@ =~= seq![self.symbol()]);
            return Ok(text);
        }
        match self {
            SpecialChar::Dollar => match env.var(expansion_buf) {
                Ok(value) => Ok(value),
                Err(_) => Ok(String::new()),
            },
            SpecialChar::Star => {
                let mut text = String::new();
                text.push('*');
                assert(text@ =~= seq!['*']);
                Ok(text)
            },
            SpecialChar::Tilde => env.home_dir(),
            SpecialChar::Backslash => {
                let payload = expansion_buf.to_owned();
                let in_double = match modifier {
                    Some(ModifierChar::DoubleQuote) => true,
                    _ => false,
                };
                if in_double {
                    proof {
                        reveal_strlit("\"");
                        reveal_strlit("\\");
                        reveal_strlit("$");
                    }
                    let quote = "\"".to_owned();
                    let backslash = "\\".to_owned();
                    let dollar = "$".to_owned();
                    assert(quote@ =~= seq!['"']);
                    assert(backslash@ =~= seq!['\\']);
                    assert(dollar@ =~= seq!['$']);
                    if payload == quote || payload == backslash || payload == dollar {
                        Ok(payload)
                    } else {
                        Ok(backslash.concat(expansion_buf))
                    }
                } else {
                    Ok(payload)
                }
            },
        }
    }
}

/// What the pass found wrong with the line as a whole. None of it stops the pass.
#[derive(PartialEq, Eq, Structural, Debug, Clone, Copy)]
pub enum TokenizerError {
    /// The input ended inside a quote; the quote counts as closed there.
    UnterminatedQuote,
}

/// Where the assembler stands between two requests for a token.
#[derive(PartialEq, Eq, Structural, Debug, Clone, Copy)]
pub enum MetaSymbolExpanderMode {
    /// Characters are being accepted into the current word.
    Chunking,
    /// A completed word waits to be handed out.
    ChunkReady,
    /// The input is consumed.
    EndReached,
}

/// Mathematical value of the assembler: the state of the pass, the input
/// that is still unread and the environment that expansions read.
#[verifier::ext_equal]
pub struct Assembler {
    pub mode: MetaSymbolExpanderMode,
    /// The active quote, if any.
    pub quote: Option<ModifierChar>,
    /// The trigger whose payload is being accumulated, if any.
    pub pending: Option<SpecialChar>,
    /// The payload accumulated for the pending trigger.
    pub name: Seq<char>,
    /// The text of the word being assembled.
    pub word: Seq<char>,
    /// Whether resolved text, possibly empty, was merged into the word.
    pub expanded: bool,
    /// The first failure met in the word.
    pub fault: Option<Fault>,
    /// The unread input.
    pub rest: Seq<char>,
    pub env: Env,
}

impl Assembler {
    /// The assembler before the first character of `input`.
    pub open spec fn start(input: Seq<char>, env: Env) -> Assembler {
        Assembler {
            mode: MetaSymbolExpanderMode::Chunking,
            quote: None,
            pending: None,
            name: Seq::empty(),
            word: Seq::empty(),
            expanded: false,
            fault: None,
            rest: input,
            env,
        }
    }

    /// `c` is copied into the word.
    pub open spec fn literal(self, c: char) -> Assembler {
        Assembler { word: self.word.push(c), ..self }
    }

    /// Resolved text joins the word; a failure is kept if it is the first.
    pub open spec fn merged(self, resolved: Token) -> Assembler {
        match resolved {
            Ok(text) => Assembler { word: self.word + text, expanded: true, ..self },
            Err(f) => Assembler {
                expanded: true,
                fault: if self.fault is None {
                    Some(f)
                } else {
                    self.fault
                },
                ..self
            },
        }
    }

    /// `trigger` is resolved with what was accumulated, and nothing is pending afterwards.
    pub open spec fn resolve_as(self, trigger: SpecialChar) -> Assembler {
        Assembler { pending: None, name: Seq::empty(), ..self }.merged(
            expansion(trigger, self.name, self.quote, self.env),
        )
    }

    /// The pending trigger, if any, is resolved with what was accumulated for it.
    pub open spec fn resolved(self) -> Assembler {
        match self.pending {
            Some(trigger) => self.resolve_as(trigger),
            None => self,
        }
    }

    /// Whether there is a word to hand out: it has text, or resolved text was
    /// merged into it.
    pub open spec fn has_word(self) -> bool {
        self.word.len() > 0 || self.expanded
    }

    /// The word as a token.
    pub open spec fn token(self) -> Token {
        match self.fault {
            Some(f) => Err(f),
            None => Ok(self.word),
        }
    }

    /// A trigger character was read while no escape was pending.
    ///
    /// Where the active quote does not allow the trigger, the character is
    /// copied. While a variable name is accumulated, it joins the name.
    /// Otherwise `$` and the backslash start to accumulate their payload, and
    /// `~` and `*` are resolved at once.
    pub open spec fn on_trigger(self, trigger: SpecialChar) -> Assembler {
        if self.quote is Some && !self.quote->0.allows(trigger) {
            self.literal(trigger.symbol())
        } else if self.pending is Some {
            Assembler { name: self.name.push(trigger.symbol()), ..self }
        } else {
            match trigger {
                SpecialChar::Dollar | SpecialChar::Backslash => Assembler {
                    pending: Some(trigger),
                    name: Seq::empty(),
                    ..self
                },
                SpecialChar::Tilde | SpecialChar::Star => Assembler {
                    name: Seq::empty(),
                    ..self
                }.resolve_as(trigger),
            }
        }
    }

    /// A quote character was read while no escape was pending.
    ///
    /// Outside quotes it opens its quote, and what is pending is resolved
    /// under the quote just opened. The matching character closes the quote,
    /// after what is pending was resolved inside it. Inside the other quote
    /// the character is copied.
    pub open spec fn on_quote(self, quote: ModifierChar) -> Assembler {
        match self.quote {
            None => Assembler { quote: Some(quote), ..self }.resolved(),
            Some(active) => if active == quote {
                Assembler { quote: None, ..self.resolved() }
            } else {
                self.literal(quote.symbol())
            },
        }
    }

    /// Whitespace was read while no escape was pending.
    ///
    /// What is pending is resolved. Inside a quote the character is then
    /// copied. Outside quotes it ends the word, if there is one: a run of
    /// whitespace makes one boundary and no empty token.
    pub open spec fn on_separator(self, separator: Separator) -> Assembler {
        let settled = self.resolved();
        if settled.quote is Some {
            settled.literal(separator.symbol())
        } else if settled.has_word() {
            Assembler { mode: MetaSymbolExpanderMode::ChunkReady, ..settled }
        } else {
            settled
        }
    }

    /// An ordinary character was read while no escape was pending: it joins
    /// the variable name that is accumulated, or else the word.
    pub open spec fn on_ordinary(self, c: char) -> Assembler {
        if self.pending is Some {
            Assembler { name: self.name.push(c), ..self }
        } else {
            self.literal(c)
        }
    }

    /// The state after the character `c`, the unread input left as it is.
    ///
    /// The character after a backslash is its payload, whatever its class.
    /// Any other character is read by its class.
    pub open spec fn consume(self, c: char) -> Assembler {
        if self.pending == Some(SpecialChar::Backslash) {
            Assembler { name: self.name.push(c), ..self }.resolve_as(SpecialChar::Backslash)
        } else {
            match class_of(c) {
                CharClass::Trigger(trigger) => self.on_trigger(trigger),
                CharClass::Quote(quote) => self.on_quote(quote),
                CharClass::Separator(separator) => self.on_separator(separator),
                CharClass::Ordinary => self.on_ordinary(c),
            }
        }
    }

    /// One step of the pass. While chunking, the next character is consumed,
    /// or, at the end of the input, what is pending is resolved and the input
    /// counts as consumed. In the other modes nothing happens.
    pub open spec fn advance(self) -> Assembler {
        if self.mode != MetaSymbolExpanderMode::Chunking {
            self
        } else if self.rest.len() == 0 {
            Assembler { mode: MetaSymbolExpanderMode::EndReached, ..self.resolved() }
        } else {
            Assembler { rest: self.rest.drop_first(), ..self }.consume(self.rest[0])
        }
    }

    /// The state after the word was handed out.
    pub open spec fn taken(self) -> Assembler {
        Assembler {
            mode: if self.mode == MetaSymbolExpanderMode::ChunkReady {
                MetaSymbolExpanderMode::Chunking
            } else {
                self.mode
            },
            word: Seq::empty(),
            expanded: false,
            fault: None,
            ..self
        }
    }

    /// How far a mode is from the end of the pass, for termination.
    pub open spec fn rank(self) -> nat {
        match self.mode {
            MetaSymbolExpanderMode::ChunkReady => 2,
            MetaSymbolExpanderMode::Chunking => 1,
            MetaSymbolExpanderMode::EndReached => 0,
        }
    }

    /// The state at which the pass pauses next: where a word is complete or
    /// the input is consumed.
    pub open spec fn paused(self) -> Assembler
        decreases self.rest.len(), self.rank(),
    {
        if self.mode == MetaSymbolExpanderMode::Chunking {
            self.advance().paused()
        } else {
            self
        }
    }

    /// Whether a token waits to be handed out: a word is complete, or the
    /// input is consumed and left a word.
    pub open spec fn waiting(self) -> bool {
        self.mode == MetaSymbolExpanderMode::ChunkReady || (self.mode
            == MetaSymbolExpanderMode::EndReached && self.has_word())
    }

    /// The tokens that are still to come, in order.
    pub open spec fn tokens(self) -> Seq<Token>
        decreases self.rest.len(), self.rank(),
    {
        match self.mode {
            MetaSymbolExpanderMode::ChunkReady => seq![self.token()] + self.taken().tokens(),
            MetaSymbolExpanderMode::Chunking => self.advance().tokens(),
            MetaSymbolExpanderMode::EndReached => if self.has_word() {
                seq![self.token()]
            } else {
                Seq::empty()
            },
        }
    }
}

/// The tokens of the line `input` under the environment `env`.
pub open spec fn tokens_of(input: Seq<char>, env: Env) -> Seq<Token> {
    Assembler::start(input, env).tokens()
}

/// The token assembler: a pull-based pass over one line.
///
/// A fresh instance is made for each line. Each request resumes the pass at
/// the character where the previous one stopped.
#[derive(Debug)]
pub struct MetaSymbolExpander<'a> {
    input: Vec<char>,
    position: usize,
    temp_buffer: String,
    expansion_buffer: String,
    mode: MetaSymbolExpanderMode,
    active_mod: Option<ModifierChar>,
    active_special: Option<SpecialChar>,
    expanded: bool,
    failure: Option<ExpansionError>,
    env: Option<&'a Environment>,
}

impl<'a> View for MetaSymbolExpander<'a> {
    type V = Assembler;

    closed spec fn view(&self) -> Assembler {
        Assembler {
            mode: self.mode,
            quote: self.active_mod,
            pending: self.active_special,
            name: self.expansion_buffer@,
            word: self.temp_buffer@,
            expanded: self.expanded,
            fault: match self.failure {
                Some(e) => Some(e@),
                None => None,
            },
            rest: if self.position <= self.input.len() {
                self.input@.skip(self.position as int)
            } else {
                Seq::empty()
            },
            env: match self.env {
                Some(env) => env@,
                None => Env::empty(),
            },
        }
    }
}

impl<'a> MetaSymbolExpander<'a> {
    /// An assembler over `line` with an environment that defines nothing.
    pub fn new(line: &str) -> (expander: MetaSymbolExpander<'a>)
        ensures
            expander@ == Assembler::start(line@, Env::empty()),
    {
        MetaSymbolExpander::over(line, None)
    }

    /// An assembler over `line` whose expansions read `env`.
    pub fn with_environment(line: &str, env: &'a Environment) -> (expander: MetaSymbolExpander<'a>)
        ensures
            expander@ == Assembler::start(line@, env@),
    {
        MetaSymbolExpander::over(line, Some(env))
    }

    fn over(line: &str, env: Option<&'a Environment>) -> (expander: MetaSymbolExpander<'a>)
        ensures
            expander@ == Assembler::start(
                line@,
                match env {
                    Some(env) => env@,
                    None => Env::empty(),
                },
            ),
    {
        let input = characters(line);
        assert(input@.skip(0) =~= input@);
        MetaSymbolExpander {
            input,
            position: 0,
            temp_buffer: String::new(),
            expansion_buffer: String::new(),
            mode: MetaSymbolExpanderMode::Chunking,
            active_mod: None,
            active_special: None,
            expanded: false,
            failure: None,
            env,
        }
    }

    /// Copies `c` into the word.
    fn push_literal(&mut self, c: char)
        ensures
            final(self)@ == old(self)@.literal(c),
    {
        self.temp_buffer.push(c);
    }

    /// Adds `c` to the payload of the pending trigger.
    fn push_payload(&mut self, c: char)
        ensures
            final(self)@ == (Assembler { name: old(self)@.name.push(c), ..old(self)@ }),
    {
        self.expansion_buffer.push(c);
    }

    /// Resolves `trigger` with the accumulated payload and merges the outcome
    /// into the word. Nothing is pending afterwards.
    fn resolve(&mut self, trigger: SpecialChar)
        ensures
            final(self)@ == old(self)@.resolve_as(trigger),
    {
        let outcome = match self.env {
            Some(env) => trigger.expand(self.expansion_buffer.as_str(), &self.active_mod, env),
            None => {
                let nothing = Environment::new();
                trigger.expand(self.expansion_buffer.as_str(), &self.active_mod, &nothing)
            },
        };
        self.expansion_buffer = String::new();
        self.active_special = None;
        self.expanded = true;
        match outcome {
            Ok(text) => {
                self.temp_buffer.append(text.as_str());
            },
            Err(e) => {
                if self.failure.is_none() {
                    self.failure = Some(e);
                }
            },
        }
    }

    /// Resolves the pending trigger, if there is one.
    fn resolve_pending(&mut self)
        ensures
            final(self)@ == old(self)@.resolved(),
    {
        match self.active_special {
            Some(trigger) => {
                self.resolve(trigger);
            },
            None => {},
        }
    }

    fn on_trigger(&mut self, special_char: SpecialChar)
        ensures
            final(self)@ == old(self)@.on_trigger(special_char),
    {
        let active = match &self.active_mod {
            Some(active_mod) => active_mod.allows_special_char(&special_char),
            None => true,
        };
        if !active {
            self.push_literal(special_char.name());
        } else if self.active_special.is_some() {
            self.push_payload(special_char.name());
        } else {
            match special_char {
                SpecialChar::Dollar | SpecialChar::Backslash => {
                    self.expansion_buffer = String::new();
                    self.active_special = Some(special_char);
                },
                SpecialChar::Tilde | SpecialChar::Star => {
                    self.expansion_buffer = String::new();
                    self.resolve(special_char);
                },
            }
        }
    }

    fn on_quote(&mut self, new_mod_char: ModifierChar)
        ensures
            final(self)@ == old(self)@.on_quote(new_mod_char),
    {
        match self.active_mod {
            None => {
                self.active_mod = Some(new_mod_char);
                self.resolve_pending();
            },
            Some(current_mod_char) => {
                if current_mod_char == new_mod_char {
                    self.resolve_pending();
                    self.active_mod = None;
                } else {
                    self.push_literal(new_mod_char.name());
                }
            },
        }
    }

    fn on_separator(&mut self, separator: Separator)
        ensures
            final(self)@ == old(self)@.on_separator(separator),
    {
        self.resolve_pending();
        if self.active_mod.is_some() {
            self.push_literal(separator.name());
        } else if !self.temp_buffer.as_str().is_empty() || self.expanded {
            self.mode = MetaSymbolExpanderMode::ChunkReady;
        }
    }

    fn on_ordinary(&mut self, normal_char: char)
        ensures
            final(self)@ == old(self)@.on_ordinary(normal_char),
    {
        if self.active_special.is_some() {
            self.push_payload(normal_char);
        } else {
            self.push_literal(normal_char);
        }
    }

    /// Feeds one character to the state machine, or, with `None`, nothing.
    ///
    /// A character that follows a pending backslash is its payload whatever
    /// its class. Any other character is handled by its class.
    pub fn apply_special_or_meta_or_separator_or_else(&mut self, character: Option<char>)
        ensures
            final(self)@ == (match character {
                Some(c) => old(self)@.consume(c),
                None => old(self)@,
            }),
    {
        if let Some(c) = character {
            let escaped = match self.active_special {
                Some(SpecialChar::Backslash) => true,
                _ => false,
            };
            if escaped {
                self.push_payload(c);
                self.resolve(SpecialChar::Backslash);
            } else {
                match classify(c) {
                    CharClass::Trigger(special_char) => self.on_trigger(special_char),
                    CharClass::Quote(mod_char) => self.on_quote(mod_char),
                    CharClass::Separator(separator) => self.on_separator(separator),
                    CharClass::Ordinary => self.on_ordinary(c),
                }
            }
        }
    }

    /// Takes one step of the pass: see [`Assembler::advance`].
    pub fn process_next_char(&mut self)
        ensures
            final(self)@ == old(self)@.advance(),
    {
        if self.mode != MetaSymbolExpanderMode::Chunking {
            return ;
        }
        if self.position >= self.input.len() {
            self.resolve_pending();
            self.mode = MetaSymbolExpanderMode::EndReached;
            return ;
        }
        let next_char = self.input[self.position];
        proof {
            let before = self.input@.skip(self.position as int);
            assert(before[0] == next_char);
            assert(before.drop_first() =~= self.input@.skip(self.position + 1));
        }
        self.position = self.position + 1;
        self.apply_special_or_meta_or_separator_or_else(Some(next_char));
    }

    /// Hands out the next token, or `None` when no token is left.
    ///
    /// The pass runs on until a word is complete or the input is consumed,
    /// and stops there; the next request resumes at that character.
    pub fn next(&mut self) -> (r: Option<Result<String, ExpansionError>>)
        ensures
            match r {
                Some(token) => {
                    &&& old(self)@.paused().waiting()
                    &&& token_view(token) == old(self)@.paused().token()
                    &&& final(self)@ == old(self)@.paused().taken()
                    &&& old(self)@.tokens().len() > 0
                    &&& token_view(token) == old(self)@.tokens()[0]
                    &&& final(self)@.tokens() == old(self)@.tokens().drop_first()
                },
                None => {
                    &&& !old(self)@.paused().waiting()
                    &&& final(self)@ == old(self)@.paused()
                    &&& old(self)@.tokens().len() == 0
                    &&& final(self)@.tokens().len() == 0
                },
            },
    {
        while self.mode == MetaSymbolExpanderMode::Chunking
            invariant
                self@.tokens() == old(self)@.tokens(),
                self@.paused() == old(self)@.paused(),
            decreases self@.rest.len(), self@.rank(),
        {
            self.process_next_char();
        }
        let ready = self.mode == MetaSymbolExpanderMode::ChunkReady;
        if !ready && self.temp_buffer.as_str().is_empty() && !self.expanded {
            return None;
        }
        let ghost before = self@;
        let text = self.temp_buffer.clone();
        self.temp_buffer = String::new();
        self.expanded = false;
        let mut failure: Option<ExpansionError> = None;
        core::mem::swap(&mut self.failure, &mut failure);
        if ready {
            self.mode = MetaSymbolExpanderMode::Chunking;
        }
        assert(self@ == before.taken());
        assert(before.tokens().drop_first() =~= self@.tokens());
        match failure {
            Some(e) => Some(Err(e)),
            None => Some(Ok(text)),
        }
    }

    /// Hands out all the tokens that are left, in order.
    pub fn collect(self) -> (tokens: Vec<Result<String, ExpansionError>>)
        ensures
            tokens_view(tokens@) == self@.tokens(),
    {
        let mut expander = self;
        let mut tokens: Vec<Result<String, ExpansionError>> = Vec::new();
        assert(tokens_view(tokens@) + expander@.tokens() =~= self@.tokens());
        loop
            invariant
                tokens_view(tokens@) + expander@.tokens() == self@.tokens(),
            ensures
                tokens_view(tokens@) == self@.tokens(),
            decreases expander@.tokens().len(),
        {
            let ghost so_far = tokens@;
            let ghost coming = expander@.tokens();
            match expander.next() {
                Some(token) => {
                    tokens.push(token);
                    assert(tokens_view(tokens@) =~= tokens_view(so_far).push(token_view(token)));
                    assert(tokens_view(tokens@) + expander@.tokens() =~= tokens_view(so_far)
                        + coming);
                },
                None => {
                    assert(tokens_view(tokens@) + expander@.tokens() =~= tokens_view(tokens@));
                    break ;
                },
            }
        }
        tokens
    }

    /// Whether the line as a whole was well formed, as far as the pass has
    /// shown: `Err(UnterminatedQuote)` once the input has ended inside a quote.
    pub fn status(&self) -> (r: Result<(), TokenizerError>)
        ensures
            r is Err <==> self@.mode == MetaSymbolExpanderMode::EndReached && self@.quote is Some,
    {
        if self.mode == MetaSymbolExpanderMode::EndReached && self.active_mod.is_some() {
            Err(TokenizerError::UnterminatedQuote)
        } else {
            Ok(())
        }
    }
}

/// Splits `line` into its word tokens, expansions reading `env`.
pub fn tokenize(line: &str, env: &Environment) -> (tokens: Vec<Result<String, ExpansionError>>)
    ensures
        tokens_view(tokens@) == tokens_of(line@, env@),
{
    MetaSymbolExpander::with_environment(line, env).collect()
}

} // verus!
