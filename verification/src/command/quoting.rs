//! What quoting, escaping and whitespace do to a line, stated of every
//! line and proved from the definition of the pass.

use crate::command::environment::{Env, Fault};
use crate::command::joined;
use crate::command::meta::{
    class_of, is_white_space, tokens_of, Assembler, MetaSymbolExpanderMode, ModifierChar,
    SpecialChar, Token,
};
use vstd::prelude::*;

verus! {

/// `c` does not occur in `text`.
pub open spec fn free_of(text: Seq<char>, c: char) -> bool {
    forall|i: int| 0 <= i < text.len() ==> text[i] != c
}

/// Every character of `text` is ordinary.
pub open spec fn all_ordinary(text: Seq<char>) -> bool {
    forall|i: int| 0 <= i < text.len() ==> class_of(#[trigger] text[i]) is Ordinary
}

/// The assembler is between two characters of a word, with no expansion pending.
pub open spec fn scanning(s: Assembler) -> bool {
    s.mode == MetaSymbolExpanderMode::Chunking && s.pending is None
}

/// The state `s` after `text` joined the word as it stands, `tail` being unread.
pub open spec fn with_text(s: Assembler, text: Seq<char>, tail: Seq<char>) -> Assembler {
    Assembler { word: s.word + text, rest: tail, ..s }
}

/// Inside single quotes a run of characters without `'` joins the word unchanged.
pub proof fn lemma_single_quoted_run(s: Assembler, text: Seq<char>, tail: Seq<char>)
    requires
        scanning(s),
        s.quote == Some(ModifierChar::SingleQuote),
        s.rest == text + tail,
        free_of(text, '\''),
    ensures
        s.tokens() == with_text(s, text, tail).tokens(),
    decreases text.len(),
{
    if text.len() == 0 {
        assert(with_text(s, text, tail) =~= s);
    } else {
        let next = s.advance();
        assert(text[0] != '\'');
        assert(next =~= with_text(s, seq![text[0]], text.drop_first() + tail));
        lemma_single_quoted_run(next, text.drop_first(), tail);
        assert(with_text(next, text.drop_first(), tail) =~= with_text(s, text, tail));
    }
}

/// Outside quotes, a single-quoted segment without `'` in it joins the word
/// verbatim, whatever stands before or after it.
pub proof fn lemma_single_quoted_segment(s: Assembler, text: Seq<char>, tail: Seq<char>)
    requires
        scanning(s),
        s.quote is None,
        s.rest == seq!['\''] + text + seq!['\''] + tail,
        free_of(text, '\''),
    ensures
        s.tokens() == with_text(s, text, tail).tokens(),
{
    let opened = s.advance();
    assert(opened =~= Assembler {
        quote: Some(ModifierChar::SingleQuote),
        rest: text + (seq!['\''] + tail),
        ..s
    });
    lemma_single_quoted_run(opened, text, seq!['\''] + tail);
    let filled = with_text(opened, text, seq!['\''] + tail);
    assert(filled.advance() =~= with_text(s, text, tail));
}

/// For every text without `'` in it, the line `'text'` is the one token
/// `text`, whatever `$`, `~`, `*`, `\`, `"` or whitespace the text holds.
///
/// The empty text is left out: `''` adds nothing to a word, so the line has no token.
pub proof fn theorem_single_quoted_is_verbatim(text: Seq<char>, env: Env)
    requires
        free_of(text, '\''),
        text.len() > 0,
    ensures
        tokens_of(seq!['\''] + text + seq!['\''], env) == seq![Ok::<Seq<char>, Fault>(text)],
{
    let line = seq!['\''] + text + seq!['\''];
    let s = Assembler::start(line, env);
    assert(line =~= seq!['\''] + text + seq!['\''] + Seq::<char>::empty());
    lemma_single_quoted_segment(s, text, Seq::empty());
    let done = with_text(s, text, Seq::empty());
    assert(done.word =~= text);
    assert(done.advance().tokens() =~= seq![Ok::<Seq<char>, Fault>(text)]);
}

/// `text` holds none of the characters that mean something inside double
/// quotes: the closing quote, `$` and the backslash.
pub open spec fn plain_in_double_quotes(text: Seq<char>) -> bool {
    free_of(text, '"') && free_of(text, '$') && free_of(text, '\\')
}

/// What a backslash and the character `c` stand for inside double quotes:
/// `c` alone for `"`, `\` and `$`, and both characters for any other `c`.
pub open spec fn escaped_in_double_quotes(c: char) -> Seq<char> {
    if c == '"' || c == '\\' || c == '$' {
        seq![c]
    } else {
        seq!['\\', c]
    }
}

/// The state `s` after resolved `text` joined the word, `tail` being unread.
pub open spec fn with_resolved(s: Assembler, text: Seq<char>, tail: Seq<char>) -> Assembler {
    Assembler { word: s.word + text, expanded: true, name: Seq::empty(), rest: tail, ..s }
}

/// Inside double quotes a run of characters other than `"`, `$` and `\`
/// joins the word unchanged.
pub proof fn lemma_double_quoted_run(s: Assembler, text: Seq<char>, tail: Seq<char>)
    requires
        scanning(s),
        s.quote == Some(ModifierChar::DoubleQuote),
        s.rest == text + tail,
        plain_in_double_quotes(text),
    ensures
        s.tokens() == with_text(s, text, tail).tokens(),
    decreases text.len(),
{
    if text.len() == 0 {
        assert(with_text(s, text, tail) =~= s);
    } else {
        let next = s.advance();
        let c = text[0];
        assert(c != '"' && c != '$' && c != '\\');
        assert(next =~= with_text(s, seq![c], text.drop_first() + tail));
        lemma_double_quoted_run(next, text.drop_first(), tail);
        assert(with_text(next, text.drop_first(), tail) =~= with_text(s, text, tail));
    }
}

/// Inside double quotes a backslash and the character after it stand for
/// [`escaped_in_double_quotes`] of that character.
pub proof fn lemma_double_quoted_escape(s: Assembler, c: char, tail: Seq<char>)
    requires
        scanning(s),
        s.quote == Some(ModifierChar::DoubleQuote),
        s.rest == seq!['\\', c] + tail,
    ensures
        s.tokens() == with_resolved(s, escaped_in_double_quotes(c), tail).tokens(),
{
    let pending = s.advance();
    assert(pending =~= Assembler {
        pending: Some(SpecialChar::Backslash),
        name: Seq::empty(),
        rest: seq![c] + tail,
        ..s
    });
    let payload = Seq::<char>::empty().push(c);
    assert(payload =~= seq![c]);
    assert(payload == seq!['"'] <==> c == '"') by {
        assert(payload[0] == c);
        assert(seq!['"'][0] == '"');
    }
    assert(payload == seq!['\\'] <==> c == '\\') by {
        assert(payload[0] == c);
        assert(seq!['\\'][0] == '\\');
    }
    assert(payload == seq!['$'] <==> c == '$') by {
        assert(payload[0] == c);
        assert(seq!['$'][0] == '$');
    }
    assert(seq!['\\'] + payload =~= seq!['\\', c]);
    assert(pending.advance() =~= with_resolved(s, escaped_in_double_quotes(c), tail));
    assert(s.tokens() == pending.tokens());
    assert(pending.tokens() == pending.advance().tokens());
}

/// While a variable name is accumulating, a run of ordinary characters joins the name.
pub proof fn lemma_name_run(s: Assembler, name: Seq<char>, tail: Seq<char>)
    requires
        s.mode == MetaSymbolExpanderMode::Chunking,
        s.pending == Some(SpecialChar::Dollar),
        s.rest == name + tail,
        all_ordinary(name),
    ensures
        s.tokens() == (Assembler { name: s.name + name, rest: tail, ..s }).tokens(),
    decreases name.len(),
{
    if name.len() == 0 {
        assert((Assembler { name: s.name + name, rest: tail, ..s }) =~= s);
    } else {
        let next = s.advance();
        assert(class_of(name[0]) is Ordinary);
        assert(next =~= Assembler {
            name: s.name.push(name[0]),
            rest: name.drop_first() + tail,
            ..s
        });
        assert forall|i: int| 0 <= i < name.drop_first().len() implies class_of(
            #[trigger] name.drop_first()[i],
        ) is Ordinary by {
            assert(name.drop_first()[i] == name[i + 1]);
        }
        lemma_name_run(next, name.drop_first(), tail);
        assert((Assembler { name: next.name + name.drop_first(), rest: tail, ..next }) =~= (
        Assembler { name: s.name + name, rest: tail, ..s }));
    }
}

/// Inside double quotes `$name`, the name made of ordinary characters and
/// ended by the closing quote, stands for the value of `name`; the quote is
/// closed afterwards.
pub proof fn lemma_double_quoted_variable(s: Assembler, name: Seq<char>, tail: Seq<char>)
    requires
        scanning(s),
        s.quote == Some(ModifierChar::DoubleQuote),
        s.rest == seq!['$'] + name + seq!['"'] + tail,
        all_ordinary(name),
    ensures
        s.tokens() == (Assembler {
            quote: None,
            ..with_resolved(s, s.env.value_of(name), tail)
        }).tokens(),
{
    let opened = s.advance();
    assert(opened =~= Assembler {
        pending: Some(SpecialChar::Dollar),
        name: Seq::empty(),
        rest: name + (seq!['"'] + tail),
        ..s
    });
    lemma_name_run(opened, name, seq!['"'] + tail);
    let named = Assembler { name: opened.name + name, rest: seq!['"'] + tail, ..opened };
    assert(named.name =~= name);
    assert(named.advance() =~= Assembler {
        quote: None,
        ..with_resolved(s, s.env.value_of(name), tail)
    });
}

/// Outside quotes, a double-quoted segment without `"`, `$` and `\` in it
/// joins the word verbatim, whatever stands before or after it.
pub proof fn lemma_double_quoted_segment(s: Assembler, text: Seq<char>, tail: Seq<char>)
    requires
        scanning(s),
        s.quote is None,
        s.rest == seq!['"'] + text + seq!['"'] + tail,
        plain_in_double_quotes(text),
    ensures
        s.tokens() == with_text(s, text, tail).tokens(),
{
    let opened = s.advance();
    assert(opened =~= Assembler {
        quote: Some(ModifierChar::DoubleQuote),
        rest: text + (seq!['"'] + tail),
        ..s
    });
    lemma_double_quoted_run(opened, text, seq!['"'] + tail);
    let filled = with_text(opened, text, seq!['"'] + tail);
    assert(filled.advance() =~= with_text(s, text, tail));
}

/// For every text without `"`, `$` and `\` in it, the line `"text"` is the
/// one token `text`: every other character is literal inside double quotes.
///
/// The empty text is left out: `""` adds nothing to a word, so the line has no token.
pub proof fn theorem_double_quoted_is_literal(text: Seq<char>, env: Env)
    requires
        plain_in_double_quotes(text),
        text.len() > 0,
    ensures
        tokens_of(seq!['"'] + text + seq!['"'], env) == seq![Ok::<Seq<char>, Fault>(text)],
{
    let line = seq!['"'] + text + seq!['"'];
    let s = Assembler::start(line, env);
    assert(line =~= seq!['"'] + text + seq!['"'] + Seq::<char>::empty());
    lemma_double_quoted_segment(s, text, Seq::empty());
    let done = with_text(s, text, Seq::empty());
    assert(done.word =~= text);
    assert(done.advance().tokens() =~= seq![Ok::<Seq<char>, Fault>(text)]);
}

/// Inside double quotes a backslash un-escapes `"`, `\` and `$` and stays in
/// place before any other character: the line `"before\cafter"` is the one
/// token `before`, [`escaped_in_double_quotes`] of `c`, `after`.
pub proof fn theorem_double_quoted_escape(
    before: Seq<char>,
    c: char,
    after: Seq<char>,
    env: Env,
)
    requires
        plain_in_double_quotes(before),
        plain_in_double_quotes(after),
    ensures
        tokens_of(seq!['"'] + before + seq!['\\', c] + after + seq!['"'], env) == seq![
            Ok::<Seq<char>, Fault>(before + escaped_in_double_quotes(c) + after),
        ],
{
    let line = seq!['"'] + before + seq!['\\', c] + after + seq!['"'];
    let s = Assembler::start(line, env);
    let opened = s.advance();
    let rest1 = seq!['\\', c] + (after + seq!['"']);
    assert(opened =~= Assembler {
        quote: Some(ModifierChar::DoubleQuote),
        rest: before + rest1,
        ..s
    });
    lemma_double_quoted_run(opened, before, rest1);
    let at_escape = with_text(opened, before, rest1);
    lemma_double_quoted_escape(at_escape, c, after + seq!['"']);
    let unescaped = with_resolved(at_escape, escaped_in_double_quotes(c), after + seq!['"']);
    lemma_double_quoted_run(unescaped, after, seq!['"']);
    let filled = with_text(unescaped, after, seq!['"']);
    let closed = filled.advance();
    assert(closed.word =~= before + escaped_in_double_quotes(c) + after);
    assert(closed.rest =~= Seq::<char>::empty());
    assert(filled.tokens() == closed.tokens());
    assert(closed.tokens() == closed.advance().tokens());
    assert(closed.advance().tokens() =~= seq![closed.token()]);
}

/// Inside double quotes `$name` expands: for a name of ordinary characters,
/// the line `"before$name"` is the one token `before` followed by the value
/// of `name`, which is no text when the name is undefined.
pub proof fn theorem_double_quoted_variable(before: Seq<char>, name: Seq<char>, env: Env)
    requires
        plain_in_double_quotes(before),
        all_ordinary(name),
    ensures
        tokens_of(seq!['"'] + before + seq!['$'] + name + seq!['"'], env) == seq![
            Ok::<Seq<char>, Fault>(before + env.value_of(name)),
        ],
{
    let line = seq!['"'] + before + seq!['$'] + name + seq!['"'];
    let s = Assembler::start(line, env);
    let opened = s.advance();
    let rest1 = seq!['$'] + name + seq!['"'] + Seq::<char>::empty();
    assert(opened =~= Assembler {
        quote: Some(ModifierChar::DoubleQuote),
        rest: before + rest1,
        ..s
    });
    lemma_double_quoted_run(opened, before, rest1);
    let at_dollar = with_text(opened, before, rest1);
    lemma_double_quoted_variable(at_dollar, name, Seq::empty());
    let closed = Assembler {
        quote: None,
        ..with_resolved(at_dollar, env.value_of(name), Seq::empty())
    };
    assert(closed.word =~= before + env.value_of(name));
    assert(closed.advance().tokens() =~= seq![closed.token()]);
}

/// Outside quotes a run of ordinary characters joins the word unchanged.
pub proof fn lemma_plain_run(s: Assembler, text: Seq<char>, tail: Seq<char>)
    requires
        scanning(s),
        s.quote is None,
        s.rest == text + tail,
        all_ordinary(text),
    ensures
        s.tokens() == with_text(s, text, tail).tokens(),
    decreases text.len(),
{
    if text.len() == 0 {
        assert(with_text(s, text, tail) =~= s);
    } else {
        let next = s.advance();
        assert(class_of(text[0]) is Ordinary);
        assert(next =~= with_text(s, seq![text[0]], text.drop_first() + tail));
        assert forall|i: int| 0 <= i < text.drop_first().len() implies class_of(
            #[trigger] text.drop_first()[i],
        ) is Ordinary by {
            assert(text.drop_first()[i] == text[i + 1]);
        }
        lemma_plain_run(next, text.drop_first(), tail);
        assert(with_text(next, text.drop_first(), tail) =~= with_text(s, text, tail));
    }
}

/// Outside quotes a backslash and the character after it stand for that
/// character alone, whatever it is.
pub proof fn lemma_unquoted_escape(s: Assembler, c: char, tail: Seq<char>)
    requires
        scanning(s),
        s.quote is None,
        s.rest == seq!['\\', c] + tail,
    ensures
        s.tokens() == with_resolved(s, seq![c], tail).tokens(),
{
    let pending = s.advance();
    assert(pending =~= Assembler {
        pending: Some(SpecialChar::Backslash),
        name: Seq::empty(),
        rest: seq![c] + tail,
        ..s
    });
    assert(Seq::<char>::empty().push(c) =~= seq![c]);
    assert(pending.advance() =~= with_resolved(s, seq![c], tail));
    assert(s.tokens() == pending.tokens());
    assert(pending.tokens() == pending.advance().tokens());
}

/// For a name of ordinary characters, the line `$name` is one token: the
/// value of `name`, and the empty token when the name is undefined.
pub proof fn theorem_unquoted_variable(name: Seq<char>, env: Env)
    requires
        all_ordinary(name),
    ensures
        tokens_of(seq!['$'] + name, env) == seq![Ok::<Seq<char>, Fault>(env.value_of(name))],
{
    let s = Assembler::start(seq!['$'] + name, env);
    let opened = s.advance();
    assert(opened =~= Assembler {
        pending: Some(SpecialChar::Dollar),
        rest: name + Seq::<char>::empty(),
        ..s
    });
    lemma_name_run(opened, name, Seq::empty());
    let named = Assembler { name: opened.name + name, rest: Seq::empty(), ..opened };
    assert(named.name =~= name);
    let done = named.advance();
    assert(done.word =~= env.value_of(name));
    assert(named.tokens() == done.tokens());
}

/// Every character of `line` is ordinary or whitespace: the line holds no
/// quote and no trigger.
pub open spec fn is_plain(line: Seq<char>) -> bool {
    forall|i: int|
        0 <= i < line.len() ==> class_of(#[trigger] line[i]) is Ordinary || is_white_space(
            line[i],
        )
}

/// The longest prefix of `text` without whitespace.
pub open spec fn first_word(text: Seq<char>) -> Seq<char>
    decreases text.len(),
{
    if text.len() == 0 || is_white_space(text[0]) {
        Seq::empty()
    } else {
        seq![text[0]] + first_word(text.drop_first())
    }
}

/// What [`first_word`] is: a prefix without whitespace that ends at the
/// first whitespace or at the end of the text.
pub proof fn lemma_first_word(text: Seq<char>)
    ensures
        first_word(text).len() <= text.len(),
        first_word(text) == text.take(first_word(text).len() as int),
        forall|i: int| 0 <= i < first_word(text).len() ==> !is_white_space(text[i]),
        first_word(text).len() < text.len() ==> is_white_space(
            text[first_word(text).len() as int],
        ),
        text.len() > 0 && !is_white_space(text[0]) ==> first_word(text).len() > 0,
    decreases text.len(),
{
    if text.len() == 0 || is_white_space(text[0]) {
        assert(first_word(text) =~= text.take(0));
    } else {
        let tail = text.drop_first();
        lemma_first_word(tail);
        let n = first_word(tail).len() as int;
        assert(first_word(text) =~= text.take(n + 1));
        assert forall|i: int| 0 <= i < first_word(text).len() implies !is_white_space(
            text[i],
        ) by {
            if i > 0 {
                assert(text[i] == tail[i - 1]);
            }
        }
        if first_word(text).len() < text.len() {
            assert(text[n + 1] == tail[n]);
        }
    }
}

/// The maximal runs of `text` without whitespace, in order.
pub open spec fn split_whitespace(text: Seq<char>) -> Seq<Seq<char>>
    decreases text.len(),
{
    if text.len() == 0 {
        Seq::empty()
    } else if is_white_space(text[0]) {
        split_whitespace(text.drop_first())
    } else {
        proof {
            lemma_first_word(text);
        }
        seq![first_word(text)] + split_whitespace(text.skip(first_word(text).len() as int))
    }
}

/// Each word as a token without failure.
pub open spec fn as_tokens(words: Seq<Seq<char>>) -> Seq<Token> {
    Seq::new(words.len(), |i: int| Ok::<Seq<char>, Fault>(words[i]))
}

/// A line without quotes and triggers is split on whitespace and on nothing
/// else, and its words come out unchanged, under every environment.
pub proof fn theorem_plain_line_splits_on_whitespace(line: Seq<char>, env: Env)
    requires
        is_plain(line),
    ensures
        tokens_of(line, env) == as_tokens(split_whitespace(line)),
    decreases line.len(),
{
    let s = Assembler::start(line, env);
    if line.len() == 0 {
        assert(s.advance().tokens() =~= Seq::<Token>::empty());
        assert(as_tokens(split_whitespace(line)) =~= Seq::<Token>::empty());
    } else if is_white_space(line[0]) {
        let tail = line.drop_first();
        assert(s.advance() =~= Assembler::start(tail, env));
        assert forall|i: int| 0 <= i < tail.len() implies class_of(#[trigger] tail[i])
            is Ordinary || is_white_space(tail[i]) by {
            assert(tail[i] == line[i + 1]);
        }
        theorem_plain_line_splits_on_whitespace(tail, env);
    } else {
        lemma_first_word(line);
        let word = first_word(line);
        let n = word.len() as int;
        let after = line.skip(n);
        assert(line =~= word + after);
        assert forall|i: int| 0 <= i < word.len() implies class_of(#[trigger] word[i])
            is Ordinary by {
            assert(word[i] == line[i]);
        }
        lemma_plain_run(s, word, after);
        let filled = with_text(s, word, after);
        assert(filled.word =~= word);
        if after.len() == 0 {
            assert(filled.advance().tokens() =~= seq![Ok::<Seq<char>, Fault>(word)]);
            assert(split_whitespace(after) =~= Seq::<Seq<char>>::empty());
            assert(as_tokens(split_whitespace(line)) =~= seq![Ok::<Seq<char>, Fault>(word)]);
        } else {
            assert(after[0] == line[n]);
            let tail = after.drop_first();
            let ready = filled.advance();
            assert(ready =~= Assembler {
                mode: MetaSymbolExpanderMode::ChunkReady,
                rest: tail,
                ..filled
            });
            assert(ready.taken() =~= Assembler::start(tail, env));
            assert(filled.tokens() == ready.tokens());
            assert(ready.tokens() == seq![Ok::<Seq<char>, Fault>(word)] + tokens_of(tail, env));
            assert forall|i: int| 0 <= i < tail.len() implies class_of(#[trigger] tail[i])
                is Ordinary || is_white_space(tail[i]) by {
                assert(tail[i] == line[n + 1 + i]);
            }
            theorem_plain_line_splits_on_whitespace(tail, env);
            assert(split_whitespace(after) == split_whitespace(tail));
            assert(as_tokens(split_whitespace(line)) =~= seq![Ok::<Seq<char>, Fault>(word)]
                + as_tokens(split_whitespace(tail)));
        }
    }
}

/// A double-quoted segment and the bare text right after it are one token:
/// closing a quote does not end the word.
pub proof fn theorem_adjacent_segments_are_one_token(
    quoted: Seq<char>,
    bare: Seq<char>,
    env: Env,
)
    requires
        plain_in_double_quotes(quoted),
        all_ordinary(bare),
        quoted.len() + bare.len() > 0,
    ensures
        tokens_of(seq!['"'] + quoted + seq!['"'] + bare, env) == seq![
            Ok::<Seq<char>, Fault>(quoted + bare),
        ],
{
    let s = Assembler::start(seq!['"'] + quoted + seq!['"'] + bare, env);
    lemma_double_quoted_segment(s, quoted, bare);
    let closed = with_text(s, quoted, bare);
    assert(closed.rest == bare + Seq::<char>::empty());
    lemma_plain_run(closed, bare, Seq::empty());
    let done = with_text(closed, bare, Seq::empty());
    assert(done.word =~= quoted + bare);
    assert(done.advance().tokens() =~= seq![Ok::<Seq<char>, Fault>(quoted + bare)]);
}

/// The first word of a text does not depend on what follows the whitespace after it.
proof fn lemma_first_word_of_prefix(before: Seq<char>, space: char, after: Seq<char>)
    requires
        is_white_space(space),
    ensures
        first_word(before + seq![space] + after) == first_word(before),
    decreases before.len(),
{
    let whole = before + seq![space] + after;
    if before.len() == 0 {
        assert(whole[0] == space);
    } else {
        assert(whole[0] == before[0]);
        if !is_white_space(before[0]) {
            assert(whole.drop_first() =~= before.drop_first() + seq![space] + after);
            lemma_first_word_of_prefix(before.drop_first(), space, after);
        }
    }
}

/// Splitting on whitespace splits at a whitespace character, wherever it stands.
proof fn lemma_split_at_whitespace(before: Seq<char>, space: char, after: Seq<char>)
    requires
        is_white_space(space),
    ensures
        split_whitespace(before + seq![space] + after) == split_whitespace(before)
            + split_whitespace(after),
    decreases before.len(),
{
    let whole = before + seq![space] + after;
    if before.len() == 0 {
        assert(whole[0] == space);
        assert(whole.drop_first() =~= after);
        assert(split_whitespace(before) + split_whitespace(after) =~= split_whitespace(after));
    } else if is_white_space(before[0]) {
        assert(whole[0] == before[0]);
        assert(whole.drop_first() =~= before.drop_first() + seq![space] + after);
        lemma_split_at_whitespace(before.drop_first(), space, after);
    } else {
        assert(whole[0] == before[0]);
        lemma_first_word_of_prefix(before, space, after);
        lemma_first_word(before);
        let n = first_word(before).len() as int;
        assert(whole.skip(n) =~= before.skip(n) + seq![space] + after);
        lemma_split_at_whitespace(before.skip(n), space, after);
        assert(split_whitespace(whole) =~= split_whitespace(before) + split_whitespace(after));
    }
}

/// A word without whitespace is its own and only word.
proof fn lemma_split_one_word(word: Seq<char>)
    requires
        word.len() > 0,
        forall|i: int| 0 <= i < word.len() ==> !is_white_space(word[i]),
    ensures
        split_whitespace(word) == seq![word],
{
    lemma_first_word(word);
    let n = first_word(word).len() as int;
    assert(n == word.len());
    assert(first_word(word) =~= word);
    assert(word.skip(n) =~= Seq::<char>::empty());
    assert(split_whitespace(word.skip(n)) =~= Seq::<Seq<char>>::empty());
    assert(!is_white_space(word[0]));
    assert(split_whitespace(word) =~= seq![word]);
}

/// Words without quotes, triggers and whitespace, joined by single spaces,
/// come back as the same words: tokenizing what was tokenized changes nothing.
pub proof fn theorem_plain_words_round_trip(words: Seq<Seq<char>>, env: Env)
    requires
        forall|i: int| 0 <= i < words.len() ==> (#[trigger] words[i]).len() > 0 && all_ordinary(
            words[i],
        ),
    ensures
        tokens_of(joined(words, seq![' ']), env) == as_tokens(words),
    decreases words.len(),
{
    let line = joined(words, seq![' ']);
    lemma_joined_words(words);
    theorem_plain_line_splits_on_whitespace(line, env);
}

/// What the words of [`theorem_plain_words_round_trip`] are joined into is a
/// plain line, and splitting it gives the words back.
proof fn lemma_joined_words(words: Seq<Seq<char>>)
    requires
        forall|i: int| 0 <= i < words.len() ==> (#[trigger] words[i]).len() > 0 && all_ordinary(
            words[i],
        ),
    ensures
        is_plain(joined(words, seq![' '])),
        split_whitespace(joined(words, seq![' '])) == words,
    decreases words.len(),
{
    let line = joined(words, seq![' ']);
    if words.len() == 0 {
        assert(split_whitespace(line) =~= words);
    } else {
        let last = words.last();
        assert(last.len() > 0 && all_ordinary(last));
        assert forall|i: int| 0 <= i < last.len() implies !is_white_space(last[i]) by {
            assert(class_of(last[i]) is Ordinary);
        }
        lemma_split_one_word(last);
        if words.len() == 1 {
            assert(line == last);
            assert(split_whitespace(line) =~= words);
        } else {
            let init = words.drop_last();
            assert forall|i: int| 0 <= i < init.len() implies (#[trigger] init[i]).len() > 0
                && all_ordinary(init[i]) by {
                assert(init[i] == words[i]);
            }
            lemma_joined_words(init);
            let head = joined(init, seq![' ']);
            assert(line == head + seq![' '] + last);
            lemma_split_at_whitespace(head, ' ', last);
            assert(split_whitespace(line) =~= words);
            assert forall|i: int| 0 <= i < line.len() implies class_of(#[trigger] line[i])
                is Ordinary || is_white_space(line[i]) by {
                if i < head.len() {
                    assert(line[i] == head[i]);
                } else if i > head.len() {
                    assert(line[i] == last[i - head.len() - 1]);
                }
            }
        }
    }
}

/// How many characters at the start of `text` are neither whitespace nor `"`.
pub open spec fn run_length(text: Seq<char>) -> nat
    decreases text.len(),
{
    if text.len() == 0 || is_white_space(text[0]) || text[0] == '"' {
        0
    } else {
        1 + run_length(text.drop_first())
    }
}

/// What [`run_length`] is: the run lies inside the text, holds neither
/// whitespace nor `"`, and ends before one of them or at the end of the text.
pub proof fn lemma_run_length(text: Seq<char>)
    ensures
        run_length(text) <= text.len(),
        forall|i: int|
            0 <= i < run_length(text) ==> !is_white_space(#[trigger] text[i]) && text[i] != '"',
        run_length(text) < text.len() ==> is_white_space(text[run_length(text) as int])
            || text[run_length(text) as int] == '"',
    decreases text.len(),
{
    if !(text.len() == 0 || is_white_space(text[0]) || text[0] == '"') {
        let tail = text.drop_first();
        lemma_run_length(tail);
        assert forall|i: int| 0 <= i < run_length(text) implies !is_white_space(
            #[trigger] text[i],
        ) && text[i] != '"' by {
            if i > 0 {
                assert(text[i] == tail[i - 1]);
            }
        }
        if run_length(text) < text.len() {
            assert(text[run_length(text) as int] == tail[run_length(tail) as int]);
        }
    }
}

/// Inside double quotes, whether `c` joins a variable name that is being read:
/// ordinary characters do, and so do `$` and the backslash.
pub open spec fn joins_name(c: char) -> bool {
    class_of(c) is Ordinary || c == '$' || c == '\\'
}

/// The characters of `run` that join the variable name, in order.
pub open spec fn name_in(run: Seq<char>) -> Seq<char>
    decreases run.len(),
{
    if run.len() == 0 {
        Seq::empty()
    } else if joins_name(run[0]) {
        seq![run[0]] + name_in(run.drop_first())
    } else {
        name_in(run.drop_first())
    }
}

/// The characters of `run` that do not join the variable name, in order:
/// they are copied into the word as they are read.
pub open spec fn copied_in(run: Seq<char>) -> Seq<char>
    decreases run.len(),
{
    if run.len() == 0 {
        Seq::empty()
    } else if joins_name(run[0]) {
        copied_in(run.drop_first())
    } else {
        seq![run[0]] + copied_in(run.drop_first())
    }
}

/// The text that the body of a double-quoted segment stands for.
///
/// A backslash and the character after it are
/// [`escaped_in_double_quotes`]. A `$` starts a run that goes on to the next
/// whitespace or to the end: the characters of the run that do not join the
/// name are copied, and then comes the value of the name. Every other
/// character is copied.
pub open spec fn double_quoted_text(body: Seq<char>, env: Env) -> Seq<char>
    decreases body.len(),
{
    if body.len() == 0 {
        Seq::empty()
    } else if body[0] == '\\' {
        if body.len() == 1 {
            seq!['\\']
        } else {
            escaped_in_double_quotes(body[1]) + double_quoted_text(body.skip(2), env)
        }
    } else if body[0] == '$' {
        proof {
            lemma_run_length(body.drop_first());
        }
        let n = run_length(body.drop_first()) as int;
        let run = body.subrange(1, 1 + n);
        copied_in(run) + env.value_of(name_in(run)) + double_quoted_text(body.skip(1 + n), env)
    } else {
        seq![body[0]] + double_quoted_text(body.drop_first(), env)
    }
}

/// The body of a double-quoted segment holds no `"` that would close the
/// quote: every `"` in it follows an escaping backslash.
pub open spec fn holds_no_closing_quote(body: Seq<char>) -> bool
    decreases body.len(),
{
    if body.len() == 0 {
        true
    } else if body[0] == '\\' {
        body.len() >= 2 && holds_no_closing_quote(body.skip(2))
    } else if body[0] == '$' {
        proof {
            lemma_run_length(body.drop_first());
        }
        let n = run_length(body.drop_first()) as int;
        (1 + n < body.len() ==> body[1 + n] != '"') && holds_no_closing_quote(body.skip(1 + n))
    } else {
        body[0] != '"' && holds_no_closing_quote(body.drop_first())
    }
}

/// Whether the body holds a `$` or a backslash, so that something is resolved in it.
pub open spec fn resolves_something(body: Seq<char>) -> bool {
    !(free_of(body, '$') && free_of(body, '\\'))
}

/// Inside double quotes, while a variable name is read, a run without
/// whitespace and `"` is dealt out between the name and the word.
pub proof fn lemma_variable_run(s: Assembler, run: Seq<char>, tail: Seq<char>)
    requires
        s.mode == MetaSymbolExpanderMode::Chunking,
        s.quote == Some(ModifierChar::DoubleQuote),
        s.pending == Some(SpecialChar::Dollar),
        s.rest == run + tail,
        forall|i: int| 0 <= i < run.len() ==> !is_white_space(#[trigger] run[i]) && run[i] != '"',
    ensures
        s.tokens() == (Assembler {
            name: s.name + name_in(run),
            word: s.word + copied_in(run),
            rest: tail,
            ..s
        }).tokens(),
    decreases run.len(),
{
    let done = Assembler {
        name: s.name + name_in(run),
        word: s.word + copied_in(run),
        rest: tail,
        ..s
    };
    if run.len() == 0 {
        assert(done =~= s);
    } else {
        let c = run[0];
        let next = s.advance();
        assert(!is_white_space(c) && c != '"');
        assert(next =~= (if joins_name(c) {
            Assembler { name: s.name.push(c), rest: run.drop_first() + tail, ..s }
        } else {
            Assembler { word: s.word.push(c), rest: run.drop_first() + tail, ..s }
        }));
        assert forall|i: int| 0 <= i < run.drop_first().len() implies !is_white_space(
            #[trigger] run.drop_first()[i],
        ) && run.drop_first()[i] != '"' by {
            assert(run.drop_first()[i] == run[i + 1]);
        }
        lemma_variable_run(next, run.drop_first(), tail);
        assert((Assembler {
            name: next.name + name_in(run.drop_first()),
            word: next.word + copied_in(run.drop_first()),
            rest: tail,
            ..next
        }) =~= done);
    }
}

/// The state after the body of a double-quoted segment and its closing quote.
pub open spec fn after_double_quoted(s: Assembler, body: Seq<char>, tail: Seq<char>) -> Assembler {
    Assembler {
        quote: None,
        word: s.word + double_quoted_text(body, s.env),
        expanded: s.expanded || resolves_something(body),
        name: if resolves_something(body) {
            Seq::empty()
        } else {
            s.name
        },
        rest: tail,
        ..s
    }
}

/// Inside double quotes, a body without a closing quote in it and the quote
/// that closes it add [`double_quoted_text`] of the body to the word.
pub proof fn lemma_double_quoted_body(s: Assembler, body: Seq<char>, tail: Seq<char>)
    requires
        scanning(s),
        s.quote == Some(ModifierChar::DoubleQuote),
        s.rest == body + seq!['"'] + tail,
        holds_no_closing_quote(body),
    ensures
        s.tokens() == after_double_quoted(s, body, tail).tokens(),
    decreases body.len(),
{
    let env = s.env;
    let goal = after_double_quoted(s, body, tail);
    if body.len() == 0 {
        assert(s.rest[0] == '"');
        assert(s.rest.drop_first() =~= tail);
        assert(s.advance() =~= goal);
    } else if body[0] == '\\' {
        let c = body[1];
        let after = body.skip(2);
        assert(s.rest =~= seq!['\\', c] + (after + seq!['"'] + tail));
        lemma_double_quoted_escape(s, c, after + seq!['"'] + tail);
        let unescaped = with_resolved(s, escaped_in_double_quotes(c), after + seq!['"'] + tail);
        lemma_double_quoted_body(unescaped, after, tail);
        assert(after_double_quoted(unescaped, after, tail) =~= goal);
    } else if body[0] == '$' {
        lemma_run_length(body.drop_first());
        let n = run_length(body.drop_first()) as int;
        let run = body.subrange(1, 1 + n);
        let after = body.skip(1 + n);
        let opened = s.advance();
        assert(s.rest[0] == '$');
        assert(opened =~= Assembler {
            pending: Some(SpecialChar::Dollar),
            name: Seq::empty(),
            rest: run + (after + seq!['"'] + tail),
            ..s
        });
        assert forall|i: int| 0 <= i < run.len() implies !is_white_space(#[trigger] run[i])
            && run[i] != '"' by {
            assert(run[i] == body.drop_first()[i]);
        }
        lemma_variable_run(opened, run, after + seq!['"'] + tail);
        let named = Assembler {
            name: opened.name + name_in(run),
            word: opened.word + copied_in(run),
            rest: after + seq!['"'] + tail,
            ..opened
        };
        assert(named.name =~= name_in(run));
        let settled = named.resolved();
        assert(settled =~= Assembler {
            pending: None,
            name: Seq::empty(),
            word: s.word + copied_in(run) + env.value_of(name_in(run)),
            expanded: true,
            ..named
        });
        assert(named.rest[0] == (after + seq!['"'])[0]);
        if after.len() == 0 {
            assert(named.rest[0] == '"');
        } else {
            assert(named.rest[0] == after[0]);
            assert(after[0] == body[1 + n]);
            assert(body[1 + n] == body.drop_first()[n]);
            assert(is_white_space(after[0]));
        }
        assert(named.advance() == settled.advance());
        assert(named.tokens() == named.advance().tokens());
        assert(settled.tokens() == settled.advance().tokens());
        lemma_double_quoted_body(settled, after, tail);
        assert(resolves_something(body)) by {
            assert(body[0] == '$');
        }
        assert(after_double_quoted(settled, after, tail) =~= goal);
    } else {
        let c = body[0];
        let after = body.drop_first();
        assert(s.rest[0] == c);
        assert(s.rest.drop_first() =~= after + seq!['"'] + tail);
        let next = s.advance();
        assert(next =~= with_text(s, seq![c], after + seq!['"'] + tail));
        lemma_double_quoted_body(next, after, tail);
        assert(resolves_something(body) == resolves_something(after)) by {
            if !resolves_something(after) {
                assert forall|i: int| 0 <= i < body.len() implies body[i] != '$' && body[i]
                    != '\\' by {
                    if i > 0 {
                        assert(body[i] == after[i - 1]);
                    }
                }
            } else {
                let k = choose|k: int| 0 <= k < after.len() && (after[k] == '$' || after[k] == '\\');
                assert(body[k + 1] == after[k]);
            }
        }
        assert(after_double_quoted(next, after, tail) =~= goal);
    }
}

/// For every body without a closing quote in it, the line `"body"` is the
/// one token [`double_quoted_text`] of the body: inside double quotes only
/// `$name` expands, a backslash un-escapes `"`, `\` and `$` and nothing
/// else, and all other characters are literal.
///
/// Where the body resolves nothing and is empty, the line has no token.
pub proof fn theorem_double_quoted(body: Seq<char>, env: Env)
    requires
        holds_no_closing_quote(body),
    ensures
        tokens_of(seq!['"'] + body + seq!['"'], env) == (if body.len() > 0 {
            seq![Ok::<Seq<char>, Fault>(double_quoted_text(body, env))]
        } else {
            Seq::empty()
        }),
{
    let s = Assembler::start(seq!['"'] + body + seq!['"'], env);
    let opened = s.advance();
    assert(opened =~= Assembler {
        quote: Some(ModifierChar::DoubleQuote),
        rest: body + seq!['"'] + Seq::<char>::empty(),
        ..s
    });
    lemma_double_quoted_body(opened, body, Seq::empty());
    let closed = after_double_quoted(opened, body, Seq::empty());
    assert(closed.word =~= double_quoted_text(body, env));
    assert(closed.advance().tokens() =~= (if closed.has_word() {
        seq![closed.token()]
    } else {
        Seq::empty()
    }));
    if body.len() > 0 && !resolves_something(body) {
        assert(body[0] != '$' && body[0] != '\\');
        assert(double_quoted_text(body, env).len() > 0);
    }
    if body.len() == 0 {
        assert(!resolves_something(body));
    }
}

} // verus!
