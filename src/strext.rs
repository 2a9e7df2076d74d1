//! Overlapping windows and consecutive chunks of a string, by symbols.
use vstd::prelude::*;

verus! {

/// The windows of `size` symbols of `s`, from each start in turn.
pub open spec fn windows_spec(s: Seq<char>, size: nat) -> Seq<Seq<char>>
    decreases s.len(),
{
    if size > s.len() || s.len() == 0 {
        Seq::empty()
    } else {
        seq![s.take(size as int)] + windows_spec(s.skip(1), size)
    }
}

/// `s` cut into pieces of `size` symbols; the last one may be shorter.
pub open spec fn chunks_spec(s: Seq<char>, size: nat) -> Seq<Seq<char>>
    decreases s.len(),
{
    if s.len() == 0 || size == 0 {
        Seq::empty()
    } else {
        let c = if s.len() < size { s.len() } else { size };
        seq![s.take(c as int)] + chunks_spec(s.skip(c as int), size)
    }
}

/// The symbols of each string.
pub open spec fn strs_view(v: Seq<&str>) -> Seq<Seq<char>> {
    v.map_values(|w: &str| w@)
}

/// Overlapping windows of a fixed number of symbols, advanced one symbol at a time.
pub struct StrWindows<'a> {
    v: &'a str,
    size: usize,
}

impl<'a> StrWindows<'a> {
    /// The symbols not yet passed.
    pub closed spec fn rest(&self) -> Seq<char> {
        self.v@
    }

    /// Symbols per window.
    pub closed spec fn width(&self) -> nat {
        self.size as nat
    }

    /// The next window, if the rest still holds one.
    pub fn next(&mut self) -> (r: Option<&'a str>)
        requires
            old(self).width() > 0,
        ensures
            final(self).width() == old(self).width(),
            if old(self).width() > old(self).rest().len() {
                r is None && final(self).rest() == old(self).rest()
            } else {
                r matches Some(w) && w@ == old(self).rest().take(old(self).width() as int)
                    && final(self).rest() == old(self).rest().skip(1)
            },
    {
        let v: &'a str = self.v;
        let n = v.unicode_len();
        if self.size > n {
            None
        } else {
            let ret = v.substring_char(0, self.size);
            self.v = v.substring_char(1, n);
            Some(ret)
        }
    }

    /// Number of windows left, as a lower and an upper bound.
    pub fn size_hint(&self) -> (r: (usize, Option<usize>))
        requires
            self.width() > 0,
        ensures
            r.0 == windows_spec(self.rest(), self.width()).len(),
            r.1 == Some(r.0),
    {
        let n = self.v.unicode_len();
        proof {
            lemma_windows_len(self.rest(), self.width());
        }
        if self.size > n {
            (0, Some(0))
        } else {
            let size = n - self.size + 1;
            (size, Some(size))
        }
    }

    /// All the windows left, in order.
    pub fn collect(self) -> (r: Vec<&'a str>)
        requires
            self.width() > 0,
        ensures
            strs_view(r@) == windows_spec(self.rest(), self.width()),
    {
        let ghost whole = windows_spec(self.rest(), self.width());
        let mut it = self;
        let mut out: Vec<&'a str> = Vec::new();
        loop
            invariant
                it.width() == self.width(),
                it.width() > 0,
                whole == windows_spec(self.rest(), self.width()),
                strs_view(out@) + windows_spec(it.rest(), it.width()) == whole,
            decreases it.rest().len(),
        {
            let ghost before = it.rest();
            match it.next() {
                None => {
                    assert(windows_spec(it.rest(), it.width()) =~= Seq::<Seq<char>>::empty());
                    assert(strs_view(out@) + Seq::<Seq<char>>::empty() =~= strs_view(out@));
                    return out;
                },
                Some(w) => {
                    let ghost prev = strs_view(out@);
                    out.push(w);
                    assert(strs_view(out@) =~= prev.push(w@));
                    assert(prev + windows_spec(before, it.width()) =~= prev.push(w@)
                        + windows_spec(it.rest(), it.width()));
                },
            }
        }
    }
}

/// Count of windows: one per start that leaves room for a whole window.
proof fn lemma_windows_len(s: Seq<char>, size: nat)
    ensures
        size > 0 ==> windows_spec(s, size).len() == if size > s.len() {
            0
        } else {
            s.len() - size + 1
        },
    decreases s.len(),
{
    if s.len() > 0 && size <= s.len() {
        lemma_windows_len(s.skip(1), size);
    }
}

/// Consecutive, non-overlapping pieces of a fixed number of symbols.
pub struct StrChunks<'a> {
    v: &'a str,
    size: usize,
}

impl<'a> StrChunks<'a> {
    /// The symbols not yet handed out.
    pub closed spec fn rest(&self) -> Seq<char> {
        self.v@
    }

    /// Symbols per chunk.
    pub closed spec fn width(&self) -> nat {
        self.size as nat
    }

    /// The next chunk from the front.
    pub fn next(&mut self) -> (r: Option<&'a str>)
        requires
            old(self).width() > 0,
        ensures
            final(self).width() == old(self).width(),
            if old(self).rest().len() == 0 {
                r is None && final(self).rest() == old(self).rest()
            } else {
                let c = if old(self).rest().len() < old(self).width() {
                    old(self).rest().len()
                } else {
                    old(self).width()
                };
                r matches Some(w) && w@ == old(self).rest().take(c as int) && final(self).rest()
                    == old(self).rest().skip(c as int)
            },
    {
        let v: &'a str = self.v;
        let n = v.unicode_len();
        if n == 0 {
            None
        } else {
            let ch = if n < self.size { n } else { self.size };
            let fst = v.substring_char(0, ch);
            self.v = v.substring_char(ch, n);
            Some(fst)
        }
    }

    /// Number of chunks left, as a lower and an upper bound.
    pub fn size_hint(&self) -> (r: (usize, Option<usize>))
        requires
            self.width() > 0,
        ensures
            r.0 == chunks_spec(self.rest(), self.width()).len(),
            r.1 == Some(r.0),
    {
        let len = self.v.unicode_len();
        proof {
            lemma_chunks_len(self.rest(), self.width());
        }
        if len == 0 {
            (0, Some(0))
        } else {
            let n = len / self.size;
            let rem = len % self.size;
            let size = self.size;
            assert(rem > 0 ==> n < len) by (nonlinear_arith)
                requires
                    n == len / size,
                    rem == len % size,
                    size > 0,
                    len > 0,
            ;
            let n = if rem > 0 { n + 1 } else { n };
            (n, Some(n))
        }
    }

    /// The last chunk: the remainder of the division into whole chunks, or a
    /// whole chunk when there is none.
    pub fn next_back(&mut self) -> (r: Option<&'a str>)
        requires
            old(self).width() > 0,
        ensures
            final(self).width() == old(self).width(),
            if old(self).rest().len() == 0 {
                r is None && final(self).rest() == old(self).rest()
            } else {
                let n = old(self).rest().len();
                let rem = n % old(self).width();
                let split = if rem != 0 { n - rem } else { n - old(self).width() };
                r matches Some(w) && w@ == old(self).rest().skip(split) && final(self).rest()
                    == old(self).rest().take(split)
            },
    {
        let v: &'a str = self.v;
        let n = v.unicode_len();
        if n == 0 {
            None
        } else {
            let remainder = n % self.size;
            let size = self.size;
            assert(remainder <= n && (remainder == 0 ==> size <= n)) by (nonlinear_arith)
                requires
                    remainder == n % size,
                    size > 0,
                    n > 0,
            ;
            let chunksz = if remainder != 0 { remainder } else { self.size };
            let split = n - chunksz;
            let snd = v.substring_char(split, n);
            self.v = v.substring_char(0, split);
            Some(snd)
        }
    }

    /// All the chunks left, in order.
    pub fn collect(self) -> (r: Vec<&'a str>)
        requires
            self.width() > 0,
        ensures
            strs_view(r@) == chunks_spec(self.rest(), self.width()),
    {
        let ghost whole = chunks_spec(self.rest(), self.width());
        let mut it = self;
        let mut out: Vec<&'a str> = Vec::new();
        loop
            invariant
                it.width() == self.width(),
                it.width() > 0,
                whole == chunks_spec(self.rest(), self.width()),
                strs_view(out@) + chunks_spec(it.rest(), it.width()) == whole,
            decreases it.rest().len(),
        {
            let ghost before = it.rest();
            match it.next() {
                None => {
                    assert(chunks_spec(it.rest(), it.width()) =~= Seq::<Seq<char>>::empty());
                    assert(strs_view(out@) + Seq::<Seq<char>>::empty() =~= strs_view(out@));
                    return out;
                },
                Some(w) => {
                    let ghost prev = strs_view(out@);
                    out.push(w);
                    assert(strs_view(out@) =~= prev.push(w@));
                    assert(prev + chunks_spec(before, it.width()) =~= prev.push(w@) + chunks_spec(
                        it.rest(),
                        it.width(),
                    ));
                },
            }
        }
    }
}

/// Count of chunks: the length divided by the width, rounded up.
proof fn lemma_chunks_len(s: Seq<char>, size: nat)
    requires
        size > 0,
    ensures
        chunks_spec(s, size).len() == s.len() / size + if s.len() % size > 0 {
            1int
        } else {
            0int
        },
    decreases s.len(),
{
    let n = s.len();
    if n == 0 {
        assert(n / size == 0 && n % size == 0) by (nonlinear_arith)
            requires
                n == 0,
                size > 0,
        ;
    } else if n < size {
        assert(s.skip(n as int).len() == 0);
        assert(chunks_spec(s.skip(n as int), size) =~= Seq::<Seq<char>>::empty());
        assert(n / size == 0 && n % size == n) by (nonlinear_arith)
            requires
                n < size,
                size > 0,
        ;
    } else {
        lemma_chunks_len(s.skip(size as int), size);
        let m = (n - size) as nat;
        assert(n / size == m / size + 1 && n % size == m % size) by (nonlinear_arith)
            requires
                m == n - size,
                size > 0,
        ;
    }
}

/// Windows and chunks of a string, counted in symbols.
pub trait StrExt {
    spec fn symbols(&self) -> Seq<char>;

    /// Overlapping windows of `size` symbols.
    fn windows(&self, size: usize) -> (r: StrWindows<'_>)
        requires
            size > 0,
        ensures
            r.rest() == self.symbols(),
            r.width() == size,
    ;

    /// Consecutive chunks of `size` symbols.
    fn chunks(&self, size: usize) -> (r: StrChunks<'_>)
        requires
            size > 0,
        ensures
            r.rest() == self.symbols(),
            r.width() == size,
    ;
}

impl StrExt for str {
    open spec fn symbols(&self) -> Seq<char> {
        self@
    }

    fn windows(&self, size: usize) -> (r: StrWindows<'_>) {
        StrWindows { v: self, size }
    }

    fn chunks(&self, size: usize) -> (r: StrChunks<'_>) {
        StrChunks { v: self, size }
    }
}

} // verus!
