//! Protein motifs: a compact pattern language (`N{P}[ST]{P}`) compiled into
//! tokens and matched against every window of a sequence.
use vstd::prelude::*;
use crate::text::chars_of;

verus! {

/// Most characters read for one bracketed class, the closing `]` included.
pub const CLASS_LIMIT: usize = 5;

/// The meaning of one compiled token.
pub enum Token {
    /// Exactly this symbol.
    Literal(char),
    /// Any symbol of the set.
    AnyOf(Seq<char>),
    /// Any symbol but this one.
    NoneOf(char),
}

/// One compiled token of a motif.
#[derive(Debug, Clone)]
pub enum Motif {
    Char(char),
    Either(Vec<char>),
    Not(char),
}

impl View for Motif {
    type V = Token;

    open spec fn view(&self) -> Token {
        match self {
            Motif::Char(c) => Token::Literal(*c),
            Motif::Either(cs) => Token::AnyOf(cs@),
            Motif::Not(c) => Token::NoneOf(*c),
        }
    }
}

/// Why a pattern could not be compiled.
#[derive(Debug, Clone, Copy, PartialEq, Eq, Structural)]
pub enum ParseError {
    /// A `[` class reached the end of the pattern before its `]`.
    UnterminatedClass,
    /// A `[` class held more characters than the limit allows.
    ClassTooLong,
    /// A `{` was not followed by one symbol and a `}`.
    UnterminatedExclusion,
    /// A character outside ASCII, which no single-byte symbol can be.
    NonAsciiSymbol,
}

/// Whether token `t` accepts symbol `c`.
pub open spec fn token_matches(t: Token, c: char) -> bool {
    match t {
        Token::Literal(d) => c == d,
        Token::AnyOf(cs) => cs.contains(c),
        Token::NoneOf(d) => c != d,
    }
}

/// The meaning of each token.
pub open spec fn tokens_view(v: Seq<Motif>) -> Seq<Token> {
    v.map_values(|m: Motif| m@)
}

/// Number of members of the class whose members start at `start`, given that
/// the first `k` characters read are members.
pub open spec fn class_members(p: Seq<char>, start: int, k: nat) -> Result<nat, ParseError>
    decreases CLASS_LIMIT - k,
{
    if k >= CLASS_LIMIT {
        Err(ParseError::ClassTooLong)
    } else if start + k >= p.len() {
        Err(ParseError::UnterminatedClass)
    } else if p[start + k] == ']' {
        Ok(k)
    } else {
        class_members(p, start, k + 1)
    }
}

/// The token that starts at position `i` of the pattern, with the number of
/// pattern characters it takes.
pub open spec fn token_at(p: Seq<char>, i: int) -> Result<(Token, nat), ParseError> {
    if p[i] == '[' {
        match class_members(p, i + 1, 0) {
            Ok(k) => Ok((Token::AnyOf(p.subrange(i + 1, i + 1 + k)), k + 2)),
            Err(e) => Err(e),
        }
    } else if p[i] == '{' {
        if i + 2 < p.len() && p[i + 2] == '}' {
            Ok((Token::NoneOf(p[i + 1]), 3nat))
        } else {
            Err(ParseError::UnterminatedExclusion)
        }
    } else {
        Ok((Token::Literal(p[i]), 1nat))
    }
}

/// The tokens compiled from the pattern's characters at `i` and after.
pub open spec fn parse_from(p: Seq<char>, i: int) -> Result<Seq<Token>, ParseError>
    decreases p.len() - i
    via parse_from_decreases
{
    if i < 0 || i >= p.len() {
        Ok(Seq::empty())
    } else {
        match token_at(p, i) {
            Ok((t, w)) => match parse_from(p, i + w) {
                Ok(rest) => Ok(seq![t] + rest),
                Err(e) => Err(e),
            },
            Err(e) => Err(e),
        }
    }
}

#[via_fn]
proof fn parse_from_decreases(p: Seq<char>, i: int) {
    if 0 <= i < p.len() {
        lemma_class_within(p, i + 1, 0);
    }
}

/// A class that is closed is closed before the end of the pattern.
proof fn lemma_class_within(p: Seq<char>, start: int, k: nat)
    ensures
        class_members(p, start, k) matches Ok(n) ==> start + n < p.len() && k <= n,
    decreases CLASS_LIMIT - k,
{
    if k < CLASS_LIMIT && start + k < p.len() && p[start + k] != ']' {
        lemma_class_within(p, start, k + 1);
    }
}

/// Every character is ASCII.
pub open spec fn ascii_only(s: Seq<char>) -> bool {
    forall|x: int| 0 <= x < s.len() ==> #[trigger] s[x] <= '\u{7f}'
}

/// The tokens compiled from the pattern's characters at `i` and after, all of
/// which must be ASCII.
pub open spec fn compile_from(p: Seq<char>, i: int) -> Result<Seq<Token>, ParseError> {
    if ascii_only(p.skip(i)) {
        parse_from(p, i)
    } else {
        Err(ParseError::NonAsciiSymbol)
    }
}

/// The tokens of a whole pattern.
pub open spec fn compile_spec(p: Seq<char>) -> Result<Seq<Token>, ParseError> {
    compile_from(p, 0)
}

/// `ts` put in front of a successful result; an error stays as it is.
pub open spec fn prepend(ts: Seq<Token>, r: Result<Seq<Token>, ParseError>) -> Result<
    Seq<Token>,
    ParseError,
> {
    match r {
        Ok(rest) => Ok(ts + rest),
        Err(e) => Err(e),
    }
}

/// Every token matches the symbol at its offset from `start`.
pub open spec fn window_matches(toks: Seq<Token>, s: Seq<char>, start: int) -> bool {
    &&& 0 <= start
    &&& start + toks.len() <= s.len()
    &&& forall|j: int| 0 <= j < toks.len() ==> token_matches(#[trigger] toks[j], s[start + j])
}

/// `r` lists, in ascending order, the 1-based start of every window of `s`
/// that the tokens match, and nothing else.
pub open spec fn match_positions(r: Seq<usize>, toks: Seq<Token>, s: Seq<char>) -> bool {
    &&& forall|a: int, b: int| 0 <= a < b < r.len() ==> r[a] < r[b]
    &&& forall|k: int| 0 <= k < r.len() ==> window_matches(toks, s, r[k] - 1)
    &&& forall|i: int| window_matches(toks, s, i) ==> exists|k: int| 0 <= k < r.len() && r[k] == i + 1
}

impl Motif {
    /// Whether this token accepts the symbol `c`.
    pub fn matches(&self, c: char) -> (r: bool)
        ensures
            r == token_matches(self@, c),
    {
        match self {
            Motif::Char(d) => c == *d,
            Motif::Not(d) => c != *d,
            Motif::Either(cs) => {
                let mut i: usize = 0;
                while i < cs.len()
                    invariant
                        self@ == Token::AnyOf(cs@),
                        i <= cs.len(),
                        forall|j: int| 0 <= j < i ==> cs@[j] != c,
                    decreases cs.len() - i,
                {
                    if cs[i] == c {
                        assert(cs@.contains(c)) by {
                            assert(cs@[i as int] == c);
                        }
                        return true;
                    }
                    i = i + 1;
                }
                false
            },
        }
    }
}

/// A motif pattern together with its compiled tokens.
pub struct ProteinMotif {
    source: Vec<char>,
    motif: Vec<Motif>,
    idx: usize,
}

impl ProteinMotif {
    /// The pattern's characters.
    pub closed spec fn source(&self) -> Seq<char> {
        self.source@
    }

    /// The tokens compiled so far.
    pub closed spec fn tokens(&self) -> Seq<Token> {
        tokens_view(self.motif@)
    }

    /// Position of the first pattern character not yet compiled.
    pub closed spec fn cursor(&self) -> int {
        self.idx as int
    }

    /// The cursor stays within the pattern.
    pub closed spec fn wf(&self) -> bool {
        self.idx <= self.source.len()
    }

    /// The tokens are exactly those of the whole pattern.
    pub open spec fn compiled(&self) -> bool {
        compile_spec(self.source()) == Ok::<Seq<Token>, ParseError>(self.tokens())
    }

    /// A motif for the pattern `src`, with nothing compiled yet.
    pub fn new(src: &str) -> (r: ProteinMotif)
        ensures
            r.wf(),
            r.source() == src@,
            r.tokens() == Seq::<Token>::empty(),
            r.cursor() == 0,
    {
        ProteinMotif { source: chars_of(src), motif: Vec::new(), idx: 0 }
    }

    fn consume_char(&mut self) -> (c: char)
        requires
            old(self).idx < old(self).source.len(),
        ensures
            c == old(self).source@[old(self).idx as int],
            final(self).idx == old(self).idx + 1,
            final(self).source@ == old(self).source@,
            final(self).motif == old(self).motif,
    {
        let c = self.source[self.idx];
        self.idx = self.idx + 1;
        c
    }

    fn eof(&self) -> (r: bool)
        ensures
            r == (self.idx >= self.source.len()),
    {
        self.idx >= self.source.len()
    }

    /// Reads the members of a class and its closing `]`.
    fn parse_either(&mut self) -> (r: Result<Motif, ParseError>)
        requires
            old(self).wf(),
        ensures
            final(self).wf(),
            final(self).source@ == old(self).source@,
            final(self).motif == old(self).motif,
            match class_members(old(self).source@, old(self).idx as int, 0) {
                Ok(k) => r matches Ok(m) && m@ == Token::AnyOf(
                    old(self).source@.subrange(old(self).idx as int, old(self).idx + k),
                ) && final(self).idx == old(self).idx + k + 1,
                Err(e) => r == Err::<Motif, ParseError>(e),
            },
    {
        let ghost p = self.source@;
        let ghost start = self.idx as int;
        let mut chars: Vec<char> = Vec::new();
        let mut k: usize = 0;
        while k < CLASS_LIMIT
            invariant
                self.wf(),
                self.source@ == p,
                p == old(self).source@,
                self.motif == old(self).motif,
                start == old(self).idx,
                k <= CLASS_LIMIT,
                self.idx == start + k,
                chars@ == p.subrange(start, start + k),
                class_members(p, start, 0) == class_members(p, start, k as nat),
            decreases CLASS_LIMIT - k,
        {
            if self.eof() {
                return Err(ParseError::UnterminatedClass);
            }
            let c = self.consume_char();
            if c == ']' {
                return Ok(Motif::Either(chars));
            }
            chars.push(c);
            assert(chars@ =~= p.subrange(start, start + k + 1));
            k = k + 1;
        }
        Err(ParseError::ClassTooLong)
    }

    /// Reads the excluded symbol and the closing `}`.
    fn parse_not(&mut self) -> (r: Result<Motif, ParseError>)
        requires
            old(self).wf(),
        ensures
            final(self).wf(),
            final(self).source@ == old(self).source@,
            final(self).motif == old(self).motif,
            ({
                let p = old(self).source@;
                let i = old(self).idx as int;
                if i + 1 < p.len() && p[i + 1] == '}' {
                    r matches Ok(m) && m@ == Token::NoneOf(p[i]) && final(self).idx == i + 2
                } else {
                    r == Err::<Motif, ParseError>(ParseError::UnterminatedExclusion)
                }
            }),
    {
        if self.eof() {
            return Err(ParseError::UnterminatedExclusion);
        }
        let ch = self.consume_char();
        if self.eof() {
            return Err(ParseError::UnterminatedExclusion);
        }
        if self.consume_char() != '}' {
            return Err(ParseError::UnterminatedExclusion);
        }
        Ok(Motif::Not(ch))
    }

    /// Compiles the rest of the pattern and appends its tokens. On an error
    /// the tokens are left as they were.
    pub fn parse(&mut self) -> (r: Result<(), ParseError>)
        requires
            old(self).wf(),
        ensures
            final(self).wf(),
            final(self).source() == old(self).source(),
            match compile_from(old(self).source(), old(self).cursor()) {
                Ok(ts) => r is Ok && final(self).tokens() == old(self).tokens() + ts
                    && final(self).cursor() == final(self).source().len(),
                Err(e) => r == Err::<(), ParseError>(e) && final(self).tokens()
                    == old(self).tokens(),
            },
    {
        let ghost p = self.source@;
        let ghost start = self.idx as int;
        let mut j: usize = self.idx;
        while j < self.source.len()
            invariant
                self.wf(),
                self.source@ == p,
                start == self.idx,
                start <= j <= p.len(),
                forall|x: int| start <= x < j ==> #[trigger] p[x] <= '\u{7f}',
            decreases p.len() - j,
        {
            if self.source[j] > '\u{7f}' {
                assert(p.skip(start)[j - start] == p[j as int]);
                return Err(ParseError::NonAsciiSymbol);
            }
            j = j + 1;
        }
        assert(ascii_only(p.skip(start))) by {
            assert forall|x: int| 0 <= x < p.skip(start).len() implies #[trigger] p.skip(start)[x]
                <= '\u{7f}' by {
                assert(p.skip(start)[x] == p[start + x]);
            }
        }
        let mut tokens: Vec<Motif> = Vec::new();
        while !self.eof()
            invariant
                self.wf(),
                self.source@ == p,
                p == old(self).source@,
                self.motif == old(self).motif,
                start == old(self).idx,
                start <= self.idx,
                ascii_only(p.skip(start)),
                parse_from(p, start) == prepend(tokens_view(tokens@), parse_from(p, self.idx as int)),
            decreases p.len() - self.idx,
        {
            let ghost i = self.idx as int;
            let current = self.consume_char();
            let token = if current == '[' {
                match self.parse_either() {
                    Ok(m) => m,
                    Err(e) => return Err(e),
                }
            } else if current == '{' {
                match self.parse_not() {
                    Ok(m) => m,
                    Err(e) => return Err(e),
                }
            } else {
                Motif::Char(current)
            };
            let ghost before = tokens_view(tokens@);
            tokens.push(token);
            assert(tokens_view(tokens@) =~= before.push(token@));
            assert(self.idx == i + token_at(p, i)->Ok_0.1);
            assert(token_at(p, i)->Ok_0.0 == token@);
            assert forall|rest: Seq<Token>| #![auto] before + (seq![token@] + rest) =~= before.push(
                token@,
            ) + rest by {}
        }
        assert(parse_from(p, self.idx as int) == Ok::<Seq<Token>, ParseError>(Seq::empty()));
        assert(tokens_view(tokens@) + Seq::<Token>::empty() =~= tokens_view(tokens@));
        let ghost before = tokens_view(self.motif@);
        let ghost added = tokens_view(tokens@);
        self.motif.append(&mut tokens);
        assert(tokens_view(self.motif@) =~= before + added);
        Ok(())
    }

    /// A motif compiled from the whole of `pattern`.
    pub fn compile(pattern: &str) -> (r: Result<ProteinMotif, ParseError>)
        ensures
            match compile_spec(pattern@) {
                Ok(ts) => r matches Ok(m) && m.wf() && m.compiled() && m.source() == pattern@
                    && m.tokens() == ts,
                Err(e) => r matches Err(f) && f == e,
            },
    {
        let mut m = ProteinMotif::new(pattern);
        match m.parse() {
            Ok(()) => {
                assert(Seq::<Token>::empty() + m.tokens() =~= m.tokens());
                Ok(m)
            },
            Err(e) => Err(e),
        }
    }

    /// Number of compiled tokens.
    pub fn len(&self) -> (r: usize)
        ensures
            r == self.tokens().len(),
    {
        self.motif.len()
    }

    /// The compiled tokens.
    pub fn tokens_vec(&self) -> (r: &Vec<Motif>)
        ensures
            tokens_view(r@) == self.tokens(),
    {
        &self.motif
    }

    /// Whether the window of `seq` that starts at `start` matches every token.
    fn is_match(&self, seq: &Vec<char>, start: usize) -> (r: bool)
        requires
            start + self.tokens().len() <= seq@.len(),
        ensures
            r == window_matches(self.tokens(), seq@, start as int),
    {
        let n = seq.len();
        let mut j: usize = 0;
        while j < self.motif.len()
            invariant
                n == seq@.len(),
                start + self.motif@.len() <= n,
                j <= self.motif@.len(),
                forall|i: int| 0 <= i < j ==> token_matches(#[trigger] self.tokens()[i], seq@[start + i]),
            decreases self.motif@.len() - j,
        {
            if !self.motif[j].matches(seq[start + j]) {
                assert(!token_matches(self.tokens()[j as int], seq@[start + j]));
                return false;
            }
            j = j + 1;
        }
        true
    }

    /// The 1-based start of every window of `data` that the motif matches, in
    /// ascending order. Windows overlap; a sequence shorter than the motif has none.
    pub fn find_motif(&self, data: &str) -> (r: Vec<usize>)
        requires
            self.tokens().len() > 0 || data@.len() < usize::MAX,
        ensures
            match_positions(r@, self.tokens(), data@),
            data@.len() < self.tokens().len() ==> r@.len() == 0,
    {
        let seq = chars_of(data);
        let n = seq.len();
        let m = self.motif.len();
        let mut r: Vec<usize> = Vec::new();
        if m <= n {
            let mut i: usize = 0;
            while i <= n - m
                invariant
                    seq@ == data@,
                    n == seq@.len(),
                    m > 0 || n < usize::MAX,
                    m == self.tokens().len(),
                    m <= n,
                    i <= n - m + 1,
                    forall|a: int, b: int| 0 <= a < b < r@.len() ==> r@[a] < r@[b],
                    forall|k: int| 0 <= k < r@.len() ==> r@[k] <= i,
                    forall|k: int| 0 <= k < r@.len() ==> window_matches(self.tokens(), data@, r@[k] - 1),
                    forall|x: int| 0 <= x < i && window_matches(self.tokens(), data@, x) ==> exists|k: int| 0 <= k < r@.len() && r@[k] == x + 1,
                decreases n - m + 1 - i,
            {
                let ghost before = r@;
                if self.is_match(&seq, i) {
                    r.push(i + 1);
                }
                assert forall|x: int| 0 <= x < i + 1 && window_matches(self.tokens(), data@, x) implies exists|k: int| 0 <= k < r@.len() && r@[k] == x + 1 by {
                    if x < i {
                        let k = choose|k: int| 0 <= k < before.len() && before[k] == x + 1;
                        assert(r@[k] == x + 1);
                    } else {
                        assert(r@[r@.len() - 1] == x + 1);
                    }
                }
                i = i + 1;
            }
        }
        r
    }
}

/// Compiling is deterministic: two motifs compiled from the same pattern hold
/// the same tokens.
pub proof fn compile_is_deterministic(first: &ProteinMotif, second: &ProteinMotif)
    requires
        first.compiled(),
        second.compiled(),
        first.source() == second.source(),
    ensures
        first.tokens() == second.tokens(),
{
}

} // verus!
