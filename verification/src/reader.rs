use crate::components::{decode_bytes, decode_name};
use crate::error::Error;
use crate::text::{isize_of, parse_isize, parse_usize, slice_is, usize_of};
use vstd::prelude::*;
use vstd::slice::slice_subrange;
use vstd::string::*;

verus! {

/// The tokens of an input, in order.
pub type Tokens = Seq<Seq<u8>>;

/// ASCII whitespace: space, tab, line feed, form feed, carriage return.
pub open spec fn is_space(b: u8) -> bool {
    b == 32 || b == 9 || b == 10 || b == 12 || b == 13
}

/// The first index from `pos` on that holds no whitespace; the length where there is none.
pub open spec fn skip_space(input: Seq<u8>, pos: int) -> int
    decreases input.len() - pos,
{
    if 0 <= pos < input.len() && is_space(input[pos]) {
        skip_space(input, pos + 1)
    } else {
        pos
    }
}

/// The first index from `pos` on that holds whitespace; the length where there is none.
pub open spec fn skip_word(input: Seq<u8>, pos: int) -> int
    decreases input.len() - pos,
{
    if 0 <= pos < input.len() && !is_space(input[pos]) {
        skip_word(input, pos + 1)
    } else {
        pos
    }
}

/// Skipping whitespace stays within the input and ends at a byte that is no whitespace, or
/// at the end.
pub proof fn lemma_skip_space(input: Seq<u8>, pos: int)
    requires
        0 <= pos <= input.len(),
    ensures
        pos <= skip_space(input, pos) <= input.len(),
        skip_space(input, pos) < input.len() ==> !is_space(input[skip_space(input, pos)]),
    decreases input.len() - pos,
{
    if pos < input.len() && is_space(input[pos]) {
        lemma_skip_space(input, pos + 1);
    }
}

/// Skipping a word stays within the input and moves on from a byte that is no whitespace.
pub proof fn lemma_skip_word(input: Seq<u8>, pos: int)
    requires
        0 <= pos <= input.len(),
    ensures
        pos <= skip_word(input, pos) <= input.len(),
        pos < input.len() && !is_space(input[pos]) ==> pos < skip_word(input, pos),
    decreases input.len() - pos,
{
    if pos < input.len() && !is_space(input[pos]) {
        lemma_skip_word(input, pos + 1);
    }
}

/// The tokens of `input` from index `pos` on: the maximal runs of bytes that are not
/// whitespace.
pub open spec fn tokens_from(input: Seq<u8>, pos: int) -> Tokens
    decreases input.len() - pos,
{
    let start = skip_space(input, pos);
    if pos < 0 || pos > input.len() || start >= input.len() {
        Seq::empty()
    } else {
        let end = skip_word(input, start);
        proof {
            lemma_skip_space(input, pos);
            lemma_skip_word(input, start);
        }
        seq![input.subrange(start, end)] + tokens_from(input, end)
    }
}

/// The tokens of `input`.
pub open spec fn tokens(input: Seq<u8>) -> Tokens {
    tokens_from(input, 0)
}

/// Skipping whitespace goes the same way behind any prefix.
pub proof fn lemma_skip_space_shift(prefix: Seq<u8>, rest: Seq<u8>, pos: int)
    requires
        0 <= pos <= rest.len(),
    ensures
        skip_space(prefix + rest, prefix.len() + pos) == prefix.len() + skip_space(rest, pos),
    decreases rest.len() - pos,
{
    let whole = prefix + rest;
    if pos < rest.len() {
        assert(whole[prefix.len() + pos] == rest[pos]);
        if is_space(rest[pos]) {
            lemma_skip_space_shift(prefix, rest, pos + 1);
        }
    }
}

/// Skipping a word goes the same way behind any prefix.
pub proof fn lemma_skip_word_shift(prefix: Seq<u8>, rest: Seq<u8>, pos: int)
    requires
        0 <= pos <= rest.len(),
    ensures
        skip_word(prefix + rest, prefix.len() + pos) == prefix.len() + skip_word(rest, pos),
    decreases rest.len() - pos,
{
    let whole = prefix + rest;
    if pos < rest.len() {
        assert(whole[prefix.len() + pos] == rest[pos]);
        if !is_space(rest[pos]) {
            lemma_skip_word_shift(prefix, rest, pos + 1);
        }
    }
}

/// The tokens behind a prefix are the tokens of what follows it.
pub proof fn lemma_tokens_shift(prefix: Seq<u8>, rest: Seq<u8>, pos: int)
    requires
        0 <= pos <= rest.len(),
    ensures
        tokens_from(prefix + rest, prefix.len() + pos) == tokens_from(rest, pos),
    decreases rest.len() - pos,
{
    let whole = prefix + rest;
    let n = prefix.len() as int;
    lemma_skip_space(rest, pos);
    lemma_skip_space_shift(prefix, rest, pos);
    let start = skip_space(rest, pos);
    if start < rest.len() {
        lemma_skip_word(rest, start);
        lemma_skip_word_shift(prefix, rest, start);
        let end = skip_word(rest, start);
        lemma_tokens_shift(prefix, rest, end);
        assert(whole.subrange(n + start, n + end) =~= rest.subrange(start, end));
    }
}

/// A word none of whose bytes is whitespace.
pub open spec fn is_word(w: Seq<u8>) -> bool {
    w.len() > 0 && forall|i: int| 0 <= i < w.len() ==> !is_space(#[trigger] w[i])
}

/// Skipping a word from within it ends at its end, where whitespace follows.
pub proof fn lemma_skip_whole_word(w: Seq<u8>, sep: u8, rest: Seq<u8>, pos: int)
    requires
        is_word(w),
        is_space(sep),
        0 <= pos <= w.len(),
    ensures
        skip_word(w + seq![sep] + rest, pos) == w.len(),
    decreases w.len() - pos,
{
    let whole = w + seq![sep] + rest;
    if pos < w.len() {
        assert(whole[pos] == w[pos]);
        lemma_skip_whole_word(w, sep, rest, pos + 1);
    } else {
        assert(whole[pos] == sep);
    }
}

/// The tokens of a word, one byte of whitespace and more input are the word and the tokens of
/// that input.
pub proof fn lemma_tokens_word(w: Seq<u8>, sep: u8, rest: Seq<u8>)
    requires
        is_word(w),
        is_space(sep),
    ensures
        tokens(w + seq![sep] + rest) == seq![w] + tokens(rest),
{
    let whole = w + seq![sep] + rest;
    let n = w.len() as int;
    assert(whole[0] == w[0]);
    assert(skip_space(whole, 0) == 0);
    lemma_skip_whole_word(w, sep, rest, 0);
    assert(whole.subrange(0, n) =~= w);
    assert(whole[n] == sep);
    assert(skip_space(whole, n) == skip_space(whole, n + 1));
    assert(tokens_from(whole, n) == tokens_from(whole, n + 1));
    assert(whole =~= (w + seq![sep]) + rest);
    lemma_tokens_shift(w + seq![sep], rest, 0);
}

/// The first token and what follows it; `TruncatedInput` where no token is left.
pub open spec fn spec_token(toks: Tokens) -> Result<(Seq<u8>, Tokens), Error> {
    if toks.len() == 0 {
        Err(Error::TruncatedInput)
    } else {
        Ok((toks[0], toks.drop_first()))
    }
}

/// The first token read as an unsigned integer.
pub open spec fn spec_usize(toks: Tokens) -> Result<(usize, Tokens), Error> {
    match spec_token(toks) {
        Err(e) => Err(e),
        Ok((t, rest)) => match usize_of(t) {
            Some(v) => Ok((v, rest)),
            None => Err(Error::SyntaxError { expected: "integer" }),
        },
    }
}

/// The first token read as a signed integer.
pub open spec fn spec_isize(toks: Tokens) -> Result<(isize, Tokens), Error> {
    match spec_token(toks) {
        Err(e) => Err(e),
        Ok((t, rest)) => match isize_of(t) {
            Some(v) => Ok((v, rest)),
            None => Err(Error::SyntaxError { expected: "integer" }),
        },
    }
}

/// The first token, which must be the keyword `word`.
pub open spec fn spec_expect(toks: Tokens, word: &'static str) -> Result<Tokens, Error> {
    match spec_token(toks) {
        Err(e) => Err(e),
        Ok((t, rest)) => if t == word.spec_bytes() {
            Ok(rest)
        } else {
            Err(Error::SyntaxError { expected: word })
        },
    }
}

/// The first token read as a name under the class prefix `prefix`.
pub open spec fn spec_name(toks: Tokens, prefix: Seq<u8>) -> Result<(usize, Tokens), Error> {
    match spec_token(toks) {
        Err(e) => Err(e),
        Ok((t, rest)) => match decode_name(prefix, t) {
            Ok(id) => Ok((id, rest)),
            Err(e) => Err(e),
        },
    }
}

/// Nothing but whitespace is left; anything else is a syntax error.
pub open spec fn spec_end(toks: Tokens) -> Result<(), Error> {
    if toks.len() == 0 {
        Ok(())
    } else {
        Err(Error::SyntaxError { expected: "end of input" })
    }
}

/// A cursor over the tokens of an input.
pub struct Reader<'a> {
    input: &'a [u8],
    pos: usize,
}

impl<'a> View for Reader<'a> {
    type V = Tokens;

    /// The tokens that are left.
    closed spec fn view(&self) -> Tokens {
        tokens_from(self.input@, self.pos as int)
    }
}

impl<'a> Reader<'a> {
    /// The cursor lies within the input.
    pub closed spec fn wf(&self) -> bool {
        self.pos <= self.input@.len()
    }

    /// A reader at the start of `input`.
    pub fn new(input: &'a [u8]) -> (reader: Self)
        ensures
            reader.wf(),
            reader@ == tokens(input@),
    {
        Reader { input, pos: 0 }
    }

    /// Takes the next token.
    pub fn take_token(&mut self) -> (res: Result<&'a [u8], Error>)
        requires
            old(self).wf(),
        ensures
            final(self).wf(),
            match spec_token(old(self)@) {
                Ok((t, rest)) => res is Ok && res->Ok_0@ == t && final(self)@ == rest,
                Err(e) => res == Err::<&[u8], Error>(e) && final(self)@ == old(self)@,
            },
    {
        let input = self.input;
        let len = input.len();
        let mut start = self.pos;
        while start < len && is_space_byte(input[start])
            invariant
                input@ == self.input@,
                len == input@.len(),
                self.pos <= start <= len,
                skip_space(input@, self.pos as int) == skip_space(input@, start as int),
            decreases len - start,
        {
            start += 1;
        }
        if start >= len {
            return Err(Error::TruncatedInput);
        }
        let mut end = start;
        while end < len && !is_space_byte(input[end])
            invariant
                input@ == self.input@,
                len == input@.len(),
                start <= end <= len,
                skip_word(input@, start as int) == skip_word(input@, end as int),
            decreases len - end,
        {
            end += 1;
        }
        proof {
            let all = tokens_from(input@, self.pos as int);
            let rest = tokens_from(input@, end as int);
            assert(all == seq![input@.subrange(start as int, end as int)] + rest);
            assert(all.drop_first() =~= rest);
        }
        self.pos = end;
        Ok(slice_subrange(input, start, end))
    }

    /// Takes the next token as an unsigned integer.
    pub fn take_usize(&mut self) -> (res: Result<usize, Error>)
        requires
            old(self).wf(),
        ensures
            final(self).wf(),
            match spec_usize(old(self)@) {
                Ok((v, rest)) => res == Ok::<usize, Error>(v) && final(self)@ == rest,
                Err(e) => res == Err::<usize, Error>(e),
            },
    {
        let token = self.take_token()?;
        proof {
            assert(token@.subrange(0, token@.len() as int) =~= token@);
        }
        match parse_usize(token, 0, token.len()) {
            Some(v) => Ok(v),
            None => Err(Error::SyntaxError { expected: "integer" }),
        }
    }

    /// Takes the next token as a signed integer.
    pub fn take_isize(&mut self) -> (res: Result<isize, Error>)
        requires
            old(self).wf(),
        ensures
            final(self).wf(),
            match spec_isize(old(self)@) {
                Ok((v, rest)) => res == Ok::<isize, Error>(v) && final(self)@ == rest,
                Err(e) => res == Err::<isize, Error>(e),
            },
    {
        let token = self.take_token()?;
        proof {
            assert(token@.subrange(0, token@.len() as int) =~= token@);
        }
        match parse_isize(token, 0, token.len()) {
            Some(v) => Ok(v),
            None => Err(Error::SyntaxError { expected: "integer" }),
        }
    }

    /// Takes the next token, which must be the keyword `word`.
    pub fn expect(&mut self, word: &'static str) -> (res: Result<(), Error>)
        requires
            old(self).wf(),
        ensures
            final(self).wf(),
            match spec_expect(old(self)@, word) {
                Ok(rest) => res == Ok::<(), Error>(()) && final(self)@ == rest,
                Err(e) => res == Err::<(), Error>(e),
            },
    {
        let token = self.take_token()?;
        check_eq(token, word)
    }

    /// Takes the next token as a name under the class prefix `prefix`.
    pub fn take_name(&mut self, prefix: &str) -> (res: Result<usize, Error>)
        requires
            old(self).wf(),
        ensures
            final(self).wf(),
            match spec_name(old(self)@, prefix.spec_bytes()) {
                Ok((id, rest)) => res == Ok::<usize, Error>(id) && final(self)@ == rest,
                Err(e) => res == Err::<usize, Error>(e),
            },
    {
        let token = self.take_token()?;
        proof {
            assert(token@.subrange(0, token@.len() as int) =~= token@);
        }
        decode_bytes(prefix, token, 0, token.len())
    }

    /// Checks that no token is left.
    pub fn finish(&mut self) -> (res: Result<(), Error>)
        requires
            old(self).wf(),
        ensures
            final(self).wf(),
            res == spec_end(old(self)@),
    {
        match self.take_token() {
            Ok(_) => Err(Error::SyntaxError { expected: "end of input" }),
            Err(_) => Ok(()),
        }
    }
}

/// Whether `b` is ASCII whitespace.
pub fn is_space_byte(b: u8) -> (res: bool)
    ensures
        res == is_space(b),
{
    b == 32 || b == 9 || b == 10 || b == 12 || b == 13
}

/// Takes the next token of `reader`.
pub fn parse_string<'a>(reader: &mut Reader<'a>) -> (res: Result<&'a [u8], Error>)
    requires
        old(reader).wf(),
    ensures
        final(reader).wf(),
        match spec_token(old(reader)@) {
            Ok((t, rest)) => res is Ok && res->Ok_0@ == t && final(reader)@ == rest,
            Err(e) => res == Err::<&[u8], Error>(e) && final(reader)@ == old(reader)@,
        },
{
    reader.take_token()
}

/// Takes the next token of `reader` as an unsigned integer.
pub fn parse_numeric(reader: &mut Reader) -> (res: Result<usize, Error>)
    requires
        old(reader).wf(),
    ensures
        final(reader).wf(),
        match spec_usize(old(reader)@) {
            Ok((v, rest)) => res == Ok::<usize, Error>(v) && final(reader)@ == rest,
            Err(e) => res == Err::<usize, Error>(e),
        },
{
    reader.take_usize()
}

/// Checks that the token `mine` is the keyword `input`.
pub fn check_eq(mine: &[u8], input: &'static str) -> (res: Result<(), Error>)
    ensures
        res == if mine@ == input.spec_bytes() {
            Ok::<(), Error>(())
        } else {
            Err::<(), Error>(Error::SyntaxError { expected: input })
        },
{
    proof {
        assert(mine@.subrange(0, mine@.len() as int) =~= mine@);
    }
    if slice_is(mine, 0, mine.len(), input) {
        Ok(())
    } else {
        Err(Error::SyntaxError { expected: input })
    }
}

} // verus!
