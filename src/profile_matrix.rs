//! Profile matrices: per-column symbol counts over equal-length sequences,
//! and the consensus sequence they give.
use vstd::prelude::*;
use crate::genome::count_nucleotides;
use crate::text::{chars_of, occurrences, push_char};

verus! {

/// The closed alphabet of a profile, in its fixed enumeration order.
#[derive(Debug, PartialEq, Eq, Clone, Copy, Structural)]
pub enum Nucleotide {
    A,
    C,
    G,
    T,
}

/// The symbol that stands for `n`.
pub open spec fn symbol_of(n: Nucleotide) -> char {
    match n {
        Nucleotide::A => 'A',
        Nucleotide::C => 'C',
        Nucleotide::G => 'G',
        Nucleotide::T => 'T',
    }
}

/// `c` is one of `A`, `C`, `G`, `T`.
pub open spec fn is_nucleotide(c: char) -> bool {
    c == 'A' || c == 'C' || c == 'G' || c == 'T'
}

impl Nucleotide {
    /// The symbol that stands for this nucleotide.
    pub fn symbol(self) -> (r: char)
        ensures
            r == symbol_of(self),
    {
        match self {
            Nucleotide::A => 'A',
            Nucleotide::C => 'C',
            Nucleotide::G => 'G',
            Nucleotide::T => 'T',
        }
    }
}

/// Why a profile could not be built.
#[derive(Debug, Clone, Copy, PartialEq, Eq, Structural)]
pub enum ProfileError {
    /// No sequences, or sequences of different lengths.
    DimensionError,
    /// A symbol outside `A`, `C`, `G`, `T`.
    InvalidSymbolError,
}

/// Symbols at position `j` of each sequence, in order.
pub open spec fn column(rows: Seq<Seq<char>>, j: int) -> Seq<char> {
    Seq::new(rows.len(), |k: int| rows[k][j])
}

/// At least one sequence, and all as long as the first.
pub open spec fn equal_lengths(rows: Seq<Seq<char>>) -> bool {
    &&& rows.len() > 0
    &&& forall|k: int| 0 <= k < rows.len() ==> (#[trigger] rows[k]).len() == rows[0].len()
}

/// Every symbol of every sequence is a nucleotide.
pub open spec fn in_alphabet(rows: Seq<Seq<char>>) -> bool {
    forall|k: int, j: int|
        0 <= k < rows.len() && 0 <= j < rows[k].len() ==> is_nucleotide(#[trigger] rows[k][j])
}

/// The symbols of each string.
pub open spec fn strings_view(v: Seq<String>) -> Seq<Seq<char>> {
    v.map_values(|s: String| s@)
}

/// The first symbol of the enumeration order whose count is not exceeded by another.
pub open spec fn consensus_symbol(a: int, c: int, g: int, t: int) -> char {
    if a >= c && a >= g && a >= t {
        'A'
    } else if c >= g && c >= t {
        'C'
    } else if g >= t {
        'G'
    } else {
        'T'
    }
}

/// Per-column counts of each nucleotide over a set of aligned sequences.
pub struct ProfileMatrix {
    a: Vec<usize>,
    c: Vec<usize>,
    g: Vec<usize>,
    t: Vec<usize>,
    length: usize,
}

impl ProfileMatrix {
    /// One count per column for each nucleotide.
    pub closed spec fn wf(&self) -> bool {
        &&& self.a@.len() == self.length
        &&& self.c@.len() == self.length
        &&& self.g@.len() == self.length
        &&& self.t@.len() == self.length
    }

    /// Number of columns.
    pub closed spec fn columns(&self) -> nat {
        self.length as nat
    }

    /// The counts of `n`, one per column.
    pub closed spec fn counts(&self, n: Nucleotide) -> Seq<usize> {
        match n {
            Nucleotide::A => self.a@,
            Nucleotide::C => self.c@,
            Nucleotide::G => self.g@,
            Nucleotide::T => self.t@,
        }
    }

    /// How often `n` occurs in column `j`.
    pub open spec fn count(&self, n: Nucleotide, j: int) -> int {
        self.counts(n)[j] as int
    }

    /// The line of `n` in the text form of the profile.
    pub open spec fn text_line(&self, n: Nucleotide) -> Seq<char> {
        seq![symbol_of(n), ':', ' '] + numbers_text(self.counts(n)) + seq!['\n']
    }

    /// The consensus symbol of every column, in column order.
    pub open spec fn consensus_view(&self) -> Seq<char> {
        Seq::new(
            self.columns(),
            |j: int|
                consensus_symbol(
                    self.count(Nucleotide::A, j),
                    self.count(Nucleotide::C, j),
                    self.count(Nucleotide::G, j),
                    self.count(Nucleotide::T, j),
                ),
        )
    }

    /// Builds the profile of `data`. Fails with `DimensionError` when `data` is
    /// empty or its sequences differ in length, else with `InvalidSymbolError`
    /// when a symbol is not one of `A`, `C`, `G`, `T`.
    pub fn new(data: &Vec<String>) -> (r: Result<ProfileMatrix, ProfileError>)
        ensures
            ({
                let rows = strings_view(data@);
                if !equal_lengths(rows) {
                    r == Err::<ProfileMatrix, ProfileError>(ProfileError::DimensionError)
                } else if !in_alphabet(rows) {
                    r == Err::<ProfileMatrix, ProfileError>(ProfileError::InvalidSymbolError)
                } else {
                    r matches Ok(m) && m.wf() && m.columns() == rows[0].len() && forall|
                        n: Nucleotide,
                        j: int,
                    |
                        0 <= j < m.columns() ==> #[trigger] m.count(n, j) == occurrences(
                            column(rows, j),
                            symbol_of(n),
                        )
                }
            }),
    {
        let ghost rows = strings_view(data@);
        if data.len() == 0 {
            return Err(ProfileError::DimensionError);
        }
        let mut seqs: Vec<Vec<char>> = Vec::new();
        let mut k: usize = 0;
        while k < data.len()
            invariant
                rows == strings_view(data@),
                k <= data@.len(),
                seqs@.len() == k,
                forall|i: int| 0 <= i < k ==> (#[trigger] seqs@[i])@ == rows[i],
            decreases data.len() - k,
        {
            seqs.push(chars_of(data[k].as_str()));
            k = k + 1;
        }
        let size = seqs[0].len();
        let mut k: usize = 0;
        while k < seqs.len()
            invariant
                rows == strings_view(data@),
                seqs@.len() == rows.len(),
                rows.len() > 0,
                forall|i: int| 0 <= i < rows.len() ==> (#[trigger] seqs@[i])@ == rows[i],
                size == rows[0].len(),
                k <= seqs@.len(),
                forall|i: int| 0 <= i < k ==> (#[trigger] rows[i]).len() == size,
            decreases seqs.len() - k,
        {
            if seqs[k].len() != size {
                assert(rows[k as int].len() != rows[0].len());
                return Err(ProfileError::DimensionError);
            }
            k = k + 1;
        }
        assert(equal_lengths(rows));
        let mut k: usize = 0;
        while k < seqs.len()
            invariant
                rows == strings_view(data@),
                seqs@.len() == rows.len(),
                equal_lengths(rows),
                forall|i: int| 0 <= i < rows.len() ==> (#[trigger] seqs@[i])@ == rows[i],
                size == rows[0].len(),
                k <= seqs@.len(),
                forall|i: int, j: int|
                    0 <= i < k && 0 <= j < size ==> is_nucleotide(#[trigger] rows[i][j]),
            decreases seqs.len() - k,
        {
            let mut j: usize = 0;
            while j < size
                invariant
                    rows == strings_view(data@),
                    seqs@.len() == rows.len(),
                    equal_lengths(rows),
                    forall|i: int| 0 <= i < rows.len() ==> (#[trigger] seqs@[i])@ == rows[i],
                    size == rows[0].len(),
                    k < seqs@.len(),
                    j <= size,
                    forall|i: int, j: int|
                        0 <= i < k && 0 <= j < size ==> is_nucleotide(#[trigger] rows[i][j]),
                    forall|x: int| 0 <= x < j ==> is_nucleotide(#[trigger] rows[k as int][x]),
                decreases size - j,
            {
                assert(rows[k as int].len() == size);
                let ch = seqs[k][j];
                if !(ch == 'A' || ch == 'C' || ch == 'G' || ch == 'T') {
                    assert(!is_nucleotide(rows[k as int][j as int]));
                    return Err(ProfileError::InvalidSymbolError);
                }
                j = j + 1;
            }
            k = k + 1;
        }
        assert(in_alphabet(rows)) by {
            assert forall|i: int, j: int|
                0 <= i < rows.len() && 0 <= j < rows[i].len() implies is_nucleotide(
                #[trigger] rows[i][j],
            ) by {
                assert(rows[i].len() == size);
            }
        }
        let cols = transpose(seqs);
        let mut a: Vec<usize> = Vec::new();
        let mut c: Vec<usize> = Vec::new();
        let mut g: Vec<usize> = Vec::new();
        let mut t: Vec<usize> = Vec::new();
        let ghost cs = cols@;
        let mut j: usize = 0;
        for col in it: cols
            invariant
                it.seq() == cs,
                cs.len() == size,
                size == rows[0].len(),
                equal_lengths(rows),
                forall|x: int|
                    0 <= x < size ==> (#[trigger] cs[x])@.len() == rows.len() && forall|k: int|
                        0 <= k < rows.len() ==> cs[x]@[k] == rows[k][x],
                j == it.index(),
                a@.len() == j,
                c@.len() == j,
                g@.len() == j,
                t@.len() == j,
                forall|x: int|
                    0 <= x < j ==> a@[x] == occurrences(#[trigger] column(rows, x), 'A') && c@[x]
                        == occurrences(column(rows, x), 'C') && g@[x] == occurrences(
                        column(rows, x),
                        'G',
                    ) && t@[x] == occurrences(column(rows, x), 'T'),
        {
            assert(col@ =~= column(rows, j as int));
            let s = vec_to_string(col);
            let (na, ng, nc, nt) = count_nucleotides(s.as_str());
            a.push(na);
            c.push(nc);
            g.push(ng);
            t.push(nt);
            j = j + 1;
        }
        let m = ProfileMatrix { a, c, g, t, length: size };
        assert forall|n: Nucleotide, x: int| 0 <= x < m.columns() implies #[trigger] m.count(n, x)
            == occurrences(column(rows, x), symbol_of(n)) by {
            match n {
                Nucleotide::A => {},
                Nucleotide::C => {},
                Nucleotide::G => {},
                Nucleotide::T => {},
            }
        }
        Ok(m)
    }

    /// Number of columns.
    pub fn len(&self) -> (r: usize)
        ensures
            r == self.columns(),
    {
        self.length
    }

    /// The counts of `idx`, one per column.
    pub fn index(&self, idx: Nucleotide) -> (r: &Vec<usize>)
        requires
            self.wf(),
        ensures
            r@ == self.counts(idx),
            r@.len() == self.columns(),
    {
        match idx {
            Nucleotide::A => &self.a,
            Nucleotide::C => &self.c,
            Nucleotide::G => &self.g,
            Nucleotide::T => &self.t,
        }
    }

    /// One line per nucleotide, in the order `A`, `C`, `G`, `T`: its symbol,
    /// a colon, a space, then its counts as by `format_numbers`.
    pub fn to_text(&self) -> (r: String)
        requires
            self.wf(),
        ensures
            r@ == self.text_line(Nucleotide::A) + self.text_line(Nucleotide::C) + self.text_line(
                Nucleotide::G,
            ) + self.text_line(Nucleotide::T),
    {
        let mut result = String::new();
        let ghost parts: Seq<Seq<char>> = seq![
            self.text_line(Nucleotide::A),
            self.text_line(Nucleotide::C),
            self.text_line(Nucleotide::G),
            self.text_line(Nucleotide::T),
        ];
        let order = [Nucleotide::A, Nucleotide::C, Nucleotide::G, Nucleotide::T];
        let mut k: usize = 0;
        while k < 4
            invariant
                self.wf(),
                k <= 4,
                order@ == seq![Nucleotide::A, Nucleotide::C, Nucleotide::G, Nucleotide::T],
                parts == seq![
                    self.text_line(Nucleotide::A),
                    self.text_line(Nucleotide::C),
                    self.text_line(Nucleotide::G),
                    self.text_line(Nucleotide::T),
                ],
                result@ == if k == 0 {
                    Seq::empty()
                } else if k == 1 {
                    parts[0]
                } else if k == 2 {
                    parts[0] + parts[1]
                } else if k == 3 {
                    parts[0] + parts[1] + parts[2]
                } else {
                    parts[0] + parts[1] + parts[2] + parts[3]
                },
            decreases 4 - k,
        {
            let n = order[k];
            let ghost before = result@;
            push_char(&mut result, n.symbol());
            push_char(&mut result, ':');
            push_char(&mut result, ' ');
            let counts = self.index(n);
            let nums = format_numbers(counts);
            result.append(nums.as_str());
            push_char(&mut result, '\n');
            assert(result@ =~= before + parts[k as int]);
            k = k + 1;
        }
        result
    }

    /// For each column, the nucleotide with the greatest count; of several
    /// with that count, the first in the order `A`, `C`, `G`, `T`.
    pub fn consensus_string(&self) -> (r: String)
        requires
            self.wf(),
        ensures
            r@ == self.consensus_view(),
    {
        let mut result = String::new();
        let mut i: usize = 0;
        while i < self.length
            invariant
                self.wf(),
                i <= self.length,
                result@ == self.consensus_view().take(i as int),
            decreases self.length - i,
        {
            let mut max_val: usize = 0;
            let mut max_nuc: Option<Nucleotide> = None;

            let ca = self.a[i];
            if ca > max_val {
                max_nuc = Some(Nucleotide::A);
                max_val = ca;
            }
            let cc = self.c[i];
            if cc > max_val {
                max_nuc = Some(Nucleotide::C);
                max_val = cc;
            }
            let cg = self.g[i];
            if cg > max_val {
                max_nuc = Some(Nucleotide::G);
                max_val = cg;
            }
            let ct = self.t[i];
            if ct > max_val {
                max_nuc = Some(Nucleotide::T);
                max_val = ct;
            }
            let sym = match max_nuc {
                Some(n) => n.symbol(),
                None => 'A',
            };
            assert(sym == consensus_symbol(ca as int, cc as int, cg as int, ct as int));
            push_char(&mut result, sym);
            assert(self.consensus_view().take(i + 1) =~= self.consensus_view().take(i as int).push(sym));
            i = i + 1;
        }
        assert(self.consensus_view().take(self.length as int) =~= self.consensus_view());
        result
    }
}

/// Consensus does not depend on how often it is asked for: two readings of
/// the same profile give the same sequence.
pub proof fn consensus_is_stable(m: &ProfileMatrix, first: Seq<char>, second: Seq<char>)
    requires
        m.wf(),
        first == m.consensus_view(),
        second == m.consensus_view(),
    ensures
        first == second,
{
}

/// Columns of `data`: column `i` holds the `i`-th item of every row, in row order.
pub fn transpose<T: Copy>(data: Vec<Vec<T>>) -> (r: Vec<Vec<T>>)
    requires
        data@.len() > 0,
        forall|k: int| 0 <= k < data@.len() ==> (#[trigger] data@[k])@.len() >= data@[0]@.len(),
    ensures
        r@.len() == data@[0]@.len(),
        forall|i: int|
            0 <= i < r@.len() ==> (#[trigger] r@[i])@.len() == data@.len() && forall|k: int|
                0 <= k < data@.len() ==> r@[i]@[k] == data@[k]@[i],
{
    let len = data[0].len();
    let mut tr_data: Vec<Vec<T>> = Vec::new();
    let mut i: usize = 0;
    while i < len
        invariant
            len == data@[0]@.len(),
            i <= len,
            data@.len() > 0,
            forall|k: int| 0 <= k < data@.len() ==> (#[trigger] data@[k])@.len() >= len,
            tr_data@.len() == i,
            forall|x: int|
                0 <= x < i ==> (#[trigger] tr_data@[x])@.len() == data@.len() && forall|k: int|
                    0 <= k < data@.len() ==> tr_data@[x]@[k] == data@[k]@[x],
        decreases len - i,
    {
        let mut col: Vec<T> = Vec::new();
        let mut k: usize = 0;
        while k < data.len()
            invariant
                i < len,
                forall|k: int| 0 <= k < data@.len() ==> (#[trigger] data@[k])@.len() >= len,
                k <= data@.len(),
                col@.len() == k,
                forall|y: int| 0 <= y < k ==> col@[y] == (#[trigger] data@[y])@[i as int],
            decreases data.len() - k,
        {
            col.push(data[k][i]);
            k = k + 1;
        }
        tr_data.push(col);
        i = i + 1;
    }
    tr_data
}

/// The string whose symbols are `input`, in order.
pub fn vec_to_string(input: Vec<char>) -> (r: String)
    ensures
        r@ == input@,
{
    let mut result = String::new();
    let mut i: usize = 0;
    while i < input.len()
        invariant
            i <= input@.len(),
            result@ == input@.take(i as int),
        decreases input.len() - i,
    {
        push_char(&mut result, input[i]);
        assert(input@.take(i as int).push(input@[i as int]) =~= input@.take(i + 1));
        i = i + 1;
    }
    assert(input@.take(input@.len() as int) =~= input@);
    result
}

/// The decimal digits of `n`, most significant first.
pub open spec fn decimal(n: nat) -> Seq<char>
    decreases n,
{
    if n < 10 {
        seq![digit_char(n)]
    } else {
        decimal(n / 10).push(digit_char(n % 10))
    }
}

/// The decimal digit for `d`, below ten.
pub open spec fn digit_char(d: nat) -> char {
    if d == 0 {
        '0'
    } else if d == 1 {
        '1'
    } else if d == 2 {
        '2'
    } else if d == 3 {
        '3'
    } else if d == 4 {
        '4'
    } else if d == 5 {
        '5'
    } else if d == 6 {
        '6'
    } else if d == 7 {
        '7'
    } else if d == 8 {
        '8'
    } else {
        '9'
    }
}

fn digit(d: usize) -> (r: char)
    requires
        d < 10,
    ensures
        r == digit_char(d as nat),
{
    if d == 0 {
        '0'
    } else if d == 1 {
        '1'
    } else if d == 2 {
        '2'
    } else if d == 3 {
        '3'
    } else if d == 4 {
        '4'
    } else if d == 5 {
        '5'
    } else if d == 6 {
        '6'
    } else if d == 7 {
        '7'
    } else if d == 8 {
        '8'
    } else {
        '9'
    }
}

/// Appends the decimal digits of `n` to `out`.
fn push_decimal(out: &mut String, n: usize)
    ensures
        final(out)@ == old(out)@ + decimal(n as nat),
    decreases n,
{
    if n < 10 {
        push_char(out, digit(n));
        assert(old(out)@.push(digit_char(n as nat)) =~= old(out)@ + decimal(n as nat));
    } else {
        push_decimal(out, n / 10);
        push_char(out, digit(n % 10));
        assert(old(out)@ + decimal((n / 10) as nat) + seq![digit_char((n % 10) as nat)] =~= old(out)@
            + decimal(n as nat));
    }
}

/// Each number in decimal followed by a space.
pub open spec fn numbers_text(nums: Seq<usize>) -> Seq<char>
    decreases nums.len(),
{
    if nums.len() == 0 {
        Seq::empty()
    } else {
        numbers_text(nums.drop_last()) + decimal(nums.last() as nat) + seq![' ']
    }
}

/// The numbers in decimal, each followed by a space.
pub fn format_numbers(nums: &Vec<usize>) -> (r: String)
    ensures
        r@ == numbers_text(nums@),
{
    let mut result = String::new();
    let mut i: usize = 0;
    while i < nums.len()
        invariant
            i <= nums@.len(),
            result@ == numbers_text(nums@.take(i as int)),
        decreases nums.len() - i,
    {
        push_decimal(&mut result, nums[i]);
        push_char(&mut result, ' ');
        assert(nums@.take(i + 1).drop_last() =~= nums@.take(i as int));
        i = i + 1;
    }
    assert(nums@.take(nums@.len() as int) =~= nums@);
    result
}

} // verus!
