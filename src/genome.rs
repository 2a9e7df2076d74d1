//! Nucleotide statistics, FASTA decoding and codon translation.
use vstd::prelude::*;
use crate::profile_matrix::{strings_view, vec_to_string};
use crate::strext::strs_view;
use crate::text::{chars_of, occurrences, lemma_occurrences_bound};

verus! {

/// Counts the occurrences of `A`, `G`, `C` and `T` in `input`, in that order.
/// Other symbols are not counted.
pub fn count_nucleotides(input: &str) -> (r: (usize, usize, usize, usize))
    ensures
        r.0 == occurrences(input@, 'A'),
        r.1 == occurrences(input@, 'G'),
        r.2 == occurrences(input@, 'C'),
        r.3 == occurrences(input@, 'T'),
{
    let v = chars_of(input);
    let mut a: usize = 0;
    let mut g: usize = 0;
    let mut c: usize = 0;
    let mut t: usize = 0;
    let mut i: usize = 0;
    while i < v.len()
        invariant
            i <= v@.len(),
            a == occurrences(v@.take(i as int), 'A'),
            g == occurrences(v@.take(i as int), 'G'),
            c == occurrences(v@.take(i as int), 'C'),
            t == occurrences(v@.take(i as int), 'T'),
        decreases v.len() - i,
    {
        let ghost pre = v@.take(i as int);
        let ghost next = v@.take(i + 1);
        assert(next.drop_last() =~= pre);
        proof {
            lemma_occurrences_bound(pre, 'A');
            lemma_occurrences_bound(pre, 'G');
            lemma_occurrences_bound(pre, 'C');
            lemma_occurrences_bound(pre, 'T');
        }
        let ch = v[i];
        if ch == 'A' {
            a = a + 1;
        } else if ch == 'G' {
            g = g + 1;
        } else if ch == 'C' {
            c = c + 1;
        } else if ch == 'T' {
            t = t + 1;
        }
        i = i + 1;
    }
    assert(v@.take(v@.len() as int) =~= v@);
    (a, g, c, t)
}

/// Amino acid that marks a stop codon.
pub const STOP: char = '_';

/// Position of a nucleotide in the order `A`, `C`, `G`, `T`; -1 for any other symbol.
pub open spec fn base_index(c: char) -> int {
    if c == 'A' {
        0
    } else if c == 'C' {
        1
    } else if c == 'G' {
        2
    } else if c == 'T' {
        3
    } else {
        -1
    }
}

/// The standard genetic code: the amino acid of the codon whose bases have
/// indexes `i`, `j`, `k` is at `16 * i + 4 * j + k`; stop codons give `_`.
pub open spec fn standard_code() -> Seq<char> {
    seq!['K', 'N', 'K', 'N', 'T', 'T', 'T', 'T', 'R', 'S', 'R', 'S', 'I', 'I', 'M', 'I', 'Q', 'H', 'Q', 'H', 'P', 'P', 'P', 'P', 'R', 'R', 'R', 'R', 'L', 'L', 'L', 'L', 'E', 'D', 'E', 'D', 'A', 'A', 'A', 'A', 'G', 'G', 'G', 'G', 'V', 'V', 'V', 'V', '_', 'Y', '_', 'Y', 'S', 'S', 'S', 'S', '_', 'C', 'W', 'C', 'L', 'F', 'L', 'F']
}

/// The amino acid of a codon: three nucleotides, else none.
pub open spec fn codon_amino(codon: Seq<char>) -> Option<char> {
    if codon.len() == 3 && base_index(codon[0]) >= 0 && base_index(codon[1]) >= 0 && base_index(
        codon[2],
    ) >= 0 {
        Some(
            standard_code()[16 * base_index(codon[0]) + 4 * base_index(codon[1]) + base_index(
                codon[2],
            )],
        )
    } else {
        None
    }
}

/// Table from codons to amino acids.
pub struct CodonTable {
    aminos: Vec<char>,
}

impl CodonTable {
    /// The table holds the standard genetic code.
    pub closed spec fn wf(&self) -> bool {
        self.aminos@ == standard_code()
    }

    /// The amino acid of the codon `s[start..start + 3]`.
    fn lookup(&self, s: &Vec<char>, start: usize) -> (r: Option<char>)
        requires
            self.wf(),
            start + 3 <= s@.len(),
        ensures
            r == codon_amino(s@.subrange(start as int, start + 3)),
    {
        let n = s.len();
        assert(start + 2 < n);
        let i = base(s[start]);
        let j = base(s[start + 1]);
        let k = base(s[start + 2]);
        let ghost codon = s@.subrange(start as int, start + 3);
        assert(codon[0] == s@[start as int] && codon[1] == s@[start + 1] && codon[2] == s@[start + 2]);
        if i < 4 && j < 4 && k < 4 {
            Some(self.aminos[16 * i + 4 * j + k])
        } else {
            None
        }
    }

    /// The amino acid of `codon`, or none when it is not three nucleotides.
    pub fn get(&self, codon: &str) -> (r: Option<char>)
        requires
            self.wf(),
        ensures
            r == codon_amino(codon@),
    {
        let v = chars_of(codon);
        if v.len() != 3 {
            return None;
        }
        assert(v@.subrange(0, 3) =~= v@);
        self.lookup(&v, 0)
    }
}

/// Index of a nucleotide in the order `A`, `C`, `G`, `T`; 4 for other symbols.
fn base(c: char) -> (r: usize)
    ensures
        base_index(c) >= 0 ==> r == base_index(c),
        base_index(c) < 0 ==> r == 4,
{
    if c == 'A' {
        0
    } else if c == 'C' {
        1
    } else if c == 'G' {
        2
    } else if c == 'T' {
        3
    } else {
        4
    }
}

/// The table of the standard genetic code; stop codons map to `_`.
pub fn dna_codon_table() -> (r: CodonTable)
    ensures
        r.wf(),
{
    let aminos = vec!['K', 'N', 'K', 'N', 'T', 'T', 'T', 'T', 'R', 'S', 'R', 'S', 'I', 'I', 'M', 'I', 'Q', 'H', 'Q', 'H', 'P', 'P', 'P', 'P', 'R', 'R', 'R', 'R', 'L', 'L', 'L', 'L', 'E', 'D', 'E', 'D', 'A', 'A', 'A', 'A', 'G', 'G', 'G', 'G', 'V', 'V', 'V', 'V', '_', 'Y', '_', 'Y', 'S', 'S', 'S', 'S', '_', 'C', 'W', 'C', 'L', 'F', 'L', 'F'];
    assert(aminos@ =~= standard_code());
    CodonTable { aminos }
}

/// Reads `s` three symbols at a time from its start: the amino acids met
/// before the first stop codon, and whether a stop codon was met. Chunks that
/// are no codon, a short tail included, are passed over.
pub open spec fn translate(s: Seq<char>) -> (Seq<char>, bool)
    decreases s.len(),
{
    if s.len() < 3 {
        (Seq::empty(), false)
    } else {
        match codon_amino(s.take(3)) {
            Some(x) => if x == STOP {
                (Seq::empty(), true)
            } else {
                let rest = translate(s.skip(3));
                (seq![x] + rest.0, rest.1)
            },
            None => translate(s.skip(3)),
        }
    }
}

/// `s` opens with the start codon `ATG`.
pub open spec fn starts_with_start_codon(s: Seq<char>) -> bool {
    s.len() >= 3 && s[0] == 'A' && s[1] == 'T' && s[2] == 'G'
}

/// The protein of the reading frame at the start of `s`: none unless `s`
/// starts with `ATG` and a stop codon follows.
pub open spec fn frame_spec(s: Seq<char>) -> Option<Seq<char>> {
    if starts_with_start_codon(s) && translate(s).1 {
        Some(translate(s).0)
    } else {
        None
    }
}

/// Translation of `s` from position `from` on.
fn translate_codons(s: &Vec<char>, from: usize, table: &CodonTable) -> (r: (Vec<char>, bool))
    requires
        table.wf(),
        from <= s@.len(),
    ensures
        (r.0@, r.1) == translate(s@.skip(from as int)),
{
    let n = s.len();
    let mut value: Vec<char> = Vec::new();
    let mut i: usize = from;
    while n - i >= 3
        invariant
            table.wf(),
            n == s@.len(),
            from <= i <= n,
            translate(s@.skip(from as int)) == ({
                let rest = translate(s@.skip(i as int));
                (value@ + rest.0, rest.1)
            }),
        decreases n - i,
    {
        let ghost cur = s@.skip(i as int);
        assert(cur.take(3) =~= s@.subrange(i as int, i + 3));
        assert(cur.skip(3) =~= s@.skip(i + 3));
        match table.lookup(s, i) {
            Some(x) => {
                if x == STOP {
                    assert(value@ + Seq::<char>::empty() =~= value@);
                    return (value, true);
                }
                let ghost rest = translate(s@.skip(i + 3));
                assert(value@ + (seq![x] + rest.0) =~= value@.push(x) + rest.0);
                value.push(x);
            },
            None => {},
        }
        i = i + 3;
    }
    assert(value@ + Seq::<char>::empty() =~= value@);
    (value, false)
}

/// The reading frame at `from`: the protein up to the first stop codon, when
/// `s` has `ATG` at `from` and a stop codon follows.
fn frame_at(s: &Vec<char>, from: usize, table: &CodonTable) -> (r: Option<Vec<char>>)
    requires
        table.wf(),
        from <= s@.len(),
    ensures
        match frame_spec(s@.skip(from as int)) {
            Some(p) => r matches Some(v) && v@ == p,
            None => r is None,
        },
{
    let n = s.len();
    if n - from < 3 || s[from] != 'A' || s[from + 1] != 'T' || s[from + 2] != 'G' {
        return None;
    }
    let (value, stopped) = translate_codons(s, from, table);
    if stopped {
        Some(value)
    } else {
        None
    }
}

/// Translates the reading frame at the start of `string` into a protein.
/// Returns none when `string` does not start with `ATG` or no stop codon follows.
pub fn reading_frame(string: &str, dna_codon_table: &CodonTable) -> (r: Option<String>)
    requires
        dna_codon_table.wf(),
    ensures
        match frame_spec(string@) {
            Some(p) => r matches Some(v) && v@ == p,
            None => r is None,
        },
{
    let s = chars_of(string);
    assert(s@.skip(0) =~= s@);
    match frame_at(&s, 0, dna_codon_table) {
        Some(v) => Some(vec_to_string(v)),
        None => None,
    }
}

/// The paired nucleotide; other symbols pair with themselves.
pub open spec fn complement(c: char) -> char {
    if c == 'A' {
        'T'
    } else if c == 'C' {
        'G'
    } else if c == 'T' {
        'A'
    } else if c == 'G' {
        'C'
    } else {
        c
    }
}

/// `s` read backwards, each nucleotide replaced by its complement.
pub open spec fn reverse_complement_spec(s: Seq<char>) -> Seq<char> {
    Seq::new(s.len(), |i: int| complement(s[s.len() - 1 - i]))
}

fn complement_chars(s: &Vec<char>) -> (r: Vec<char>)
    ensures
        r@ == reverse_complement_spec(s@),
{
    let n = s.len();
    let mut r: Vec<char> = Vec::new();
    let mut i: usize = 0;
    while i < n
        invariant
            n == s@.len(),
            i <= n,
            r@ == reverse_complement_spec(s@).take(i as int),
        decreases n - i,
    {
        let ch = s[n - 1 - i];
        let c = if ch == 'A' {
            'T'
        } else if ch == 'C' {
            'G'
        } else if ch == 'T' {
            'A'
        } else if ch == 'G' {
            'C'
        } else {
            ch
        };
        r.push(c);
        assert(r@ =~= reverse_complement_spec(s@).take(i + 1));
        i = i + 1;
    }
    assert(r@ =~= reverse_complement_spec(s@));
    r
}

/// The reverse complement of a strand: read backwards, with `A` and `T`, and
/// `C` and `G`, swapped; other symbols are kept.
pub fn reverse_complement(input: &str) -> (r: String)
    ensures
        r@ == reverse_complement_spec(input@),
{
    vec_to_string(complement_chars(&chars_of(input)))
}

/// A protein of a reading frame that starts at one of the first
/// `dna.len() - 3` positions of `dna` or of its reverse complement.
pub open spec fn is_open_reading_frame(dna: Seq<char>, p: Seq<char>) -> bool {
    exists|start: int| #![trigger dna.skip(start)]
        0 <= start < dna.len() - 3 && (frame_spec(dna.skip(start)) == Some(p) || frame_spec(
            reverse_complement_spec(dna).skip(start),
        ) == Some(p))
}

/// No two items are equal.
pub open spec fn distinct(v: Seq<Seq<char>>) -> bool {
    forall|a: int, b: int| 0 <= a < b < v.len() ==> v[a] != v[b]
}

/// The protein of a frame, if there is one, is in `set`.
pub open spec fn covers(set: Seq<Seq<char>>, f: Option<Seq<char>>) -> bool {
    f matches Some(p) ==> set.contains(p)
}

/// Adds `s` to `set` unless a string equal to it is there.
fn insert_distinct(set: &mut Vec<String>, s: String)
    ensures
        strings_view(final(set)@) == if strings_view(old(set)@).contains(s@) {
            strings_view(old(set)@)
        } else {
            strings_view(old(set)@).push(s@)
        },
        strings_view(final(set)@).contains(s@),
        forall|p: Seq<char>|
            #[trigger] strings_view(final(set)@).contains(p) <==> strings_view(old(set)@).contains(p)
                || p == s@,
{
    let ghost sv = s@;
    let mut k: usize = 0;
    while k < set.len()
        invariant
            k <= set@.len(),
            set@ == old(set)@,
            forall|x: int| 0 <= x < k ==> (#[trigger] set@[x])@ != s@,
        decreases set.len() - k,
    {
        if set[k] == s {
            assert(strings_view(set@)[k as int] == s@);
            return;
        }
        k = k + 1;
    }
    assert(!strings_view(set@).contains(s@)) by {
        if strings_view(set@).contains(s@) {
            let x = choose|x: int| 0 <= x < strings_view(set@).len() && strings_view(set@)[x] == s@;
            assert(set@[x]@ == s@);
        }
    }
    set.push(s);
    let ghost nv = strings_view(set@);
    assert(nv =~= strings_view(old(set)@).push(sv));
    assert(nv[nv.len() - 1] == sv);
    assert forall|p: Seq<char>| #[trigger] nv.contains(p) implies strings_view(old(set)@).contains(p)
        || p == sv by {
        let x = choose|x: int| 0 <= x < nv.len() && nv[x] == p;
        if x < nv.len() - 1 {
            assert(strings_view(old(set)@)[x] == p);
        }
    }
    assert forall|p: Seq<char>| strings_view(old(set)@).contains(p) implies #[trigger] nv.contains(p) by {
        let x = choose|x: int| 0 <= x < strings_view(old(set)@).len() && strings_view(old(set)@)[x] == p;
        assert(nv[x] == p);
    }
}

/// Every distinct protein of an open reading frame of `dna_string`, read on
/// the strand and on its reverse complement, in order of discovery.
pub fn open_reading_frames(dna_string: &str, dna_codon_table: CodonTable) -> (r: Vec<String>)
    requires
        dna_codon_table.wf(),
        dna_string@.len() >= 3,
    ensures
        distinct(strings_view(r@)),
        forall|p: Seq<char>|
            #[trigger] strings_view(r@).contains(p) <==> is_open_reading_frame(dna_string@, p),
{
    let d = chars_of(dna_string);
    let rc = complement_chars(&d);
    let ghost dv = dna_string@;
    let ghost rcv = reverse_complement_spec(dv);
    let mut result: Vec<String> = Vec::new();
    let n = d.len();
    assert(rc@.len() == n);
    let mut start: usize = 0;
    while start < n - 3
        invariant
            dna_codon_table.wf(),
            d@ == dv,
            rc@ == rcv,
            rcv == reverse_complement_spec(dv),
            dv == dna_string@,
            n == dv.len(),
            rcv.len() == n,
            n >= 3,
            start <= n - 3,
            distinct(strings_view(result@)),
            forall|p: Seq<char>|
                #[trigger] strings_view(result@).contains(p) ==> is_open_reading_frame(dv, p),
            forall|x: int|
                0 <= x < start ==> covers(strings_view(result@), #[trigger] frame_spec(dv.skip(x)))
                    && covers(strings_view(result@), frame_spec(rcv.skip(x))),
        decreases n - 3 - start,
    {
        let ghost before = strings_view(result@);
        match frame_at(&d, start, &dna_codon_table) {
            Some(v) => {
                insert_distinct(&mut result, vec_to_string(v));
            },
            None => {},
        }
        assert(covers(strings_view(result@), frame_spec(dv.skip(start as int))));
        let ghost mid = strings_view(result@);
        match frame_at(&rc, start, &dna_codon_table) {
            Some(v) => {
                insert_distinct(&mut result, vec_to_string(v));
            },
            None => {},
        }
        assert(covers(strings_view(result@), frame_spec(rcv.skip(start as int))));
        assert(covers(strings_view(result@), frame_spec(dv.skip(start as int))));
        assert forall|a: int, b: int| 0 <= a < b < strings_view(result@).len() implies strings_view(result@)[a] != strings_view(result@)[b] by {
            if b >= mid.len() {
                assert(mid[a] == strings_view(result@)[a]);
                assert(mid.contains(mid[a]));
            } else if b >= before.len() {
                assert(before[a] == strings_view(result@)[a]);
                assert(before.contains(before[a]));
            } else {
                assert(before[a] == strings_view(result@)[a]);
                assert(before[b] == strings_view(result@)[b]);
            }
        }
        assert forall|p: Seq<char>| #[trigger] strings_view(result@).contains(p) implies is_open_reading_frame(dv, p) by {
            if !before.contains(p) {
                if frame_spec(dv.skip(start as int)) == Some(p) {
                    assert(0 <= start < dv.len() - 3 && frame_spec(dv.skip(start as int)) == Some(p));
                } else {
                    assert(frame_spec(rcv.skip(start as int)) == Some(p));
                    assert(0 <= start < dv.len() - 3 && frame_spec(rcv.skip(start as int)) == Some(p)
                        && frame_spec(dv.skip(start as int)) != Some(p));
                }
            }
        }
        start = start + 1;
    }
    assert forall|p: Seq<char>| is_open_reading_frame(dv, p) implies #[trigger] strings_view(
        result@,
    ).contains(p) by {
        let x = choose|x: int| #![trigger dv.skip(x)]
            0 <= x < dv.len() - 3 && (frame_spec(dv.skip(x)) == Some(p) || frame_spec(
                rcv.skip(x),
            ) == Some(p));
        assert(covers(strings_view(result@), frame_spec(dv.skip(x))));
    }
    result
}

/// `s` with every occurrence of `pat` taken out, scanning from the left;
/// occurrences do not overlap. An empty `pat` leaves `s` as it is.
pub open spec fn remove_all(s: Seq<char>, pat: Seq<char>) -> Seq<char>
    decreases s.len(),
{
    if pat.len() == 0 || s.len() < pat.len() {
        s
    } else if s.take(pat.len() as int) == pat {
        remove_all(s.skip(pat.len() as int), pat)
    } else {
        seq![s[0]] + remove_all(s.skip(1), pat)
    }
}

/// `s` with the occurrences of each intron taken out, one intron after another.
pub open spec fn remove_introns(s: Seq<char>, introns: Seq<Seq<char>>) -> Seq<char>
    decreases introns.len(),
{
    if introns.len() == 0 {
        s
    } else {
        remove_all(remove_introns(s, introns.drop_last()), introns.last())
    }
}

/// Whether `pat` occurs in `s` at `i`.
fn occurs_at(s: &Vec<char>, i: usize, pat: &Vec<char>) -> (r: bool)
    requires
        i + pat@.len() <= s@.len(),
    ensures
        r == (s@.subrange(i as int, i + pat@.len()) == pat@),
{
    let n = s.len();
    let mut j: usize = 0;
    while j < pat.len()
        invariant
            n == s@.len(),
            i + pat@.len() <= n,
            j <= pat@.len(),
            forall|x: int| 0 <= x < j ==> s@[i + x] == pat@[x],
        decreases pat.len() - j,
    {
        if s[i + j] != pat[j] {
            assert(s@.subrange(i as int, i + pat@.len())[j as int] != pat@[j as int]);
            return false;
        }
        j = j + 1;
    }
    assert(s@.subrange(i as int, i + pat@.len()) =~= pat@);
    true
}

fn remove_occurrences(s: &Vec<char>, pat: &Vec<char>) -> (r: Vec<char>)
    ensures
        r@ == remove_all(s@, pat@),
{
    let n = s.len();
    let m = pat.len();
    let mut r: Vec<char> = Vec::new();
    let mut i: usize = 0;
    assert(s@.skip(0) =~= s@);
    assert(r@ + remove_all(s@, pat@) =~= remove_all(s@, pat@));
    while i < n
        invariant
            n == s@.len(),
            m == pat@.len(),
            i <= n,
            r@ + remove_all(s@.skip(i as int), pat@) == remove_all(s@, pat@),
        decreases n - i,
    {
        let ghost cur = s@.skip(i as int);
        if m > 0 && n - i >= m && occurs_at(s, i, pat) {
            assert(cur.take(m as int) =~= s@.subrange(i as int, i + m));
            assert(cur.skip(m as int) =~= s@.skip(i + m));
            i = i + m;
        } else {
            if m > 0 && n - i >= m {
                assert(cur.take(m as int) =~= s@.subrange(i as int, i + m));
            }
            assert(cur.skip(1) =~= s@.skip(i + 1));
            let ghost rest = remove_all(s@.skip(i + 1), pat@);
            if m == 0 || n - i < m {
                assert(remove_all(cur, pat@) == cur);
                assert(n - (i + 1) < m ==> remove_all(s@.skip(i + 1), pat@) == s@.skip(i + 1));
                assert(cur =~= seq![s@[i as int]] + s@.skip(i + 1));
            }
            assert(r@ + (seq![s@[i as int]] + rest) =~= r@.push(s@[i as int]) + rest);
            r.push(s[i]);
            i = i + 1;
        }
    }
    assert(remove_all(s@.skip(n as int), pat@) =~= Seq::<char>::empty()) by {
        assert(s@.skip(n as int).len() == 0);
    }
    assert(r@ + Seq::<char>::empty() =~= r@);
    r
}

/// Takes each intron out of `dna`, in order, then translates what is left from
/// its start up to the first stop codon (or to its end, when there is none).
pub fn translate_exons(dna: &str, introns: Vec<&str>, dna_codon_table: CodonTable) -> (r: String)
    requires
        dna_codon_table.wf(),
    ensures
        r@ == translate(remove_introns(dna@, strs_view(introns@))).0,
{
    let mut exons = chars_of(dna);
    let mut k: usize = 0;
    while k < introns.len()
        invariant
            k <= introns@.len(),
            exons@ == remove_introns(dna@, strs_view(introns@).take(k as int)),
        decreases introns.len() - k,
    {
        let pat = chars_of(introns[k]);
        exons = remove_occurrences(&exons, &pat);
        assert(strs_view(introns@).take(k + 1).drop_last() =~= strs_view(introns@).take(k as int));
        k = k + 1;
    }
    assert(strs_view(introns@).take(introns@.len() as int) =~= strs_view(introns@));
    assert(exons@.skip(0) =~= exons@);
    let (translated, _) = translate_codons(&exons, 0, &dna_codon_table);
    vec_to_string(translated)
}

/// The 1-based positions in `h` that a greedy left-to-right match of the
/// symbols of `needle` takes, reading the first `i` symbols of `h`.
pub open spec fn greedy_positions(h: Seq<char>, needle: Seq<char>, i: nat) -> Seq<usize>
    decreases i,
{
    if i == 0 {
        Seq::empty()
    } else {
        let prev = greedy_positions(h, needle, (i - 1) as nat);
        if prev.len() < needle.len() && needle[prev.len() as int] == h[i - 1] {
            prev.push(i as usize)
        } else {
            prev
        }
    }
}

/// Positions (1-based) of the symbols of `needle` in `haystack`, each taken
/// at its first occurrence after the one before. Stops when `needle` is used up.
pub fn find_subsequence(haystack: &str, needle: &str) -> (r: Vec<usize>)
    ensures
        r@ == greedy_positions(haystack@, needle@, haystack@.len()),
{
    let h = chars_of(haystack);
    let nd = chars_of(needle);
    let mut indices: Vec<usize> = Vec::new();
    let mut i: usize = 0;
    while i < h.len()
        invariant
            h@ == haystack@,
            nd@ == needle@,
            i <= h@.len(),
            indices@ == greedy_positions(haystack@, needle@, i as nat),
            indices@.len() <= nd@.len(),
        decreases h.len() - i,
    {
        let k = indices.len();
        if k < nd.len() && nd[k] == h[i] {
            indices.push(i + 1);
        } else if k >= nd.len() {
            proof {
                lemma_greedy_done(haystack@, needle@, (i + 1) as nat, h@.len());
            }
            return indices;
        }
        i = i + 1;
    }
    indices
}

/// Once the needle is used up, reading more of the haystack adds nothing.
proof fn lemma_greedy_done(h: Seq<char>, needle: Seq<char>, i: nat, j: nat)
    requires
        1 <= i <= j,
        greedy_positions(h, needle, (i - 1) as nat).len() >= needle.len(),
    ensures
        greedy_positions(h, needle, j) == greedy_positions(h, needle, (i - 1) as nat),
    decreases j,
{
    if j > i {
        lemma_greedy_done(h, needle, i, (j - 1) as nat);
    }
}

/// Number of positions below `n` where `a` and `b` differ.
pub open spec fn mismatches(a: Seq<char>, b: Seq<char>, n: nat) -> nat
    decreases n,
{
    if n == 0 {
        0
    } else {
        mismatches(a, b, (n - 1) as nat) + if a[n - 1] != b[n - 1] {
            1nat
        } else {
            0nat
        }
    }
}

/// Number of positions where `a` and `b` differ, over the length of the shorter.
pub fn hamming_distance(a: &str, b: &str) -> (r: usize)
    ensures
        r == mismatches(a@, b@, if a@.len() < b@.len() { a@.len() } else { b@.len() }),
{
    let x = chars_of(a);
    let y = chars_of(b);
    let n = if x.len() < y.len() { x.len() } else { y.len() };
    let mut count: usize = 0;
    let mut i: usize = 0;
    while i < n
        invariant
            x@ == a@,
            y@ == b@,
            n <= x@.len(),
            n <= y@.len(),
            i <= n,
            count <= i,
            count == mismatches(a@, b@, i as nat),
        decreases n - i,
    {
        if x[i] != y[i] {
            count = count + 1;
        }
        i = i + 1;
    }
    count
}

/// `input` with every `T` replaced by `U`.
pub fn dna_to_rna(input: &str) -> (r: String)
    ensures
        r@ == Seq::new(input@.len(), |i: int| if input@[i] == 'T' { 'U' } else { input@[i] }),
{
    let v = chars_of(input);
    let mut out: Vec<char> = Vec::new();
    let mut i: usize = 0;
    while i < v.len()
        invariant
            v@ == input@,
            i <= v@.len(),
            out@ == Seq::new(i as nat, |x: int| if input@[x] == 'T' { 'U' } else { input@[x] }),
        decreases v.len() - i,
    {
        let c = v[i];
        out.push(if c == 'T' { 'U' } else { c });
        assert(out@ =~= Seq::new((i + 1) as nat, |x: int| if input@[x] == 'T' { 'U' } else { input@[x] }));
        i = i + 1;
    }
    vec_to_string(out)
}

/// Position of the first `\n` of `s` at or after `i`, or the length of `s`.
pub open spec fn line_end(s: Seq<char>, i: int) -> int
    decreases s.len() - i,
{
    if i < 0 || i >= s.len() {
        s.len() as int
    } else if s[i] == '\n' {
        i
    } else {
        line_end(s, i + 1)
    }
}

/// The line of `s` that starts at `i`: up to its `\n`, without a `\r` just
/// before that `\n`.
pub open spec fn line_at(s: Seq<char>, i: int) -> Seq<char> {
    let e = line_end(s, i);
    if e < s.len() && e > i && s[e - 1] == '\r' {
        s.subrange(i, e - 1)
    } else {
        s.subrange(i, e)
    }
}

/// The lines of `s` from position `i` on. A `\n` at the very end opens no
/// further line.
pub open spec fn lines_from(s: Seq<char>, i: int) -> Seq<Seq<char>>
    decreases s.len() + 1 - i
    via lines_from_decreases
{
    if i < 0 || i >= s.len() {
        Seq::empty()
    } else {
        seq![line_at(s, i)] + lines_from(s, line_end(s, i) + 1)
    }
}

/// The end of a line is never before its start.
proof fn lemma_line_end(s: Seq<char>, i: int)
    requires
        0 <= i <= s.len(),
    ensures
        i <= line_end(s, i) <= s.len(),
        forall|x: int| i <= x < line_end(s, i) ==> s[x] != '\n',
        line_end(s, i) < s.len() ==> s[line_end(s, i)] == '\n',
    decreases s.len() - i,
{
    if i < s.len() && s[i] != '\n' {
        lemma_line_end(s, i + 1);
    }
}

#[via_fn]
proof fn lines_from_decreases(s: Seq<char>, i: int) {
    if 0 <= i < s.len() {
        lemma_line_end(s, i);
    }
}

/// Index of the last record labelled `label`, or -1 when there is none.
pub open spec fn find_label(recs: Seq<(Seq<char>, Seq<char>)>, label: Seq<char>) -> int
    decreases recs.len(),
{
    if recs.len() == 0 {
        -1
    } else if recs.last().0 == label {
        recs.len() - 1
    } else {
        find_label(recs.drop_last(), label)
    }
}

/// The sequence recorded under `label`, empty when there is none.
pub open spec fn content_of(recs: Seq<(Seq<char>, Seq<char>)>, label: Seq<char>) -> Seq<char> {
    let k = find_label(recs, label);
    if k >= 0 {
        recs[k].1
    } else {
        Seq::empty()
    }
}

/// `recs` with the sequence under `label` set to `content`; a new label goes last.
pub open spec fn upsert(recs: Seq<(Seq<char>, Seq<char>)>, label: Seq<char>, content: Seq<char>) -> Seq<
    (Seq<char>, Seq<char>),
> {
    let k = find_label(recs, label);
    if k >= 0 {
        recs.update(k, (label, content))
    } else {
        recs.push((label, content))
    }
}

/// One line of FASTA text applied to the records and the current label: a
/// line that starts with `>` opens an empty record under the rest of the line
/// (emptying one of that label); any other line, trimmed, is appended to the
/// record of the current label.
pub open spec fn fasta_step(st: (Seq<(Seq<char>, Seq<char>)>, Seq<char>), line: Seq<char>) -> (
    Seq<(Seq<char>, Seq<char>)>,
    Seq<char>,
) {
    if line.len() > 0 && line[0] == '>' {
        (upsert(st.0, line.skip(1), Seq::empty()), line.skip(1))
    } else {
        (upsert(st.0, st.1, content_of(st.0, st.1) + trimmed(line)), st.1)
    }
}

/// The lines applied one after another, first to last.
pub open spec fn fasta_run(st: (Seq<(Seq<char>, Seq<char>)>, Seq<char>), lines: Seq<Seq<char>>) -> (
    Seq<(Seq<char>, Seq<char>)>,
    Seq<char>,
)
    decreases lines.len(),
{
    if lines.len() == 0 {
        st
    } else {
        fasta_run(fasta_step(st, lines[0]), lines.skip(1))
    }
}

/// The records of a FASTA text, labels in order of first appearance. Lines
/// before the first label go under the empty label.
pub open spec fn fasta_records(data: Seq<char>) -> Seq<(Seq<char>, Seq<char>)> {
    fasta_run((Seq::empty(), Seq::empty()), lines_from(data, 0)).0
}

/// Records as label and sequence symbols.
pub open spec fn records_view(v: Seq<(String, String)>) -> Seq<(Seq<char>, Seq<char>)> {
    v.map_values(|p: (String, String)| (p.0@, p.1@))
}

/// No label names two records.
pub open spec fn labels_distinct(recs: Seq<(Seq<char>, Seq<char>)>) -> bool {
    forall|a: int, b: int| 0 <= a < b < recs.len() ==> recs[a].0 != recs[b].0
}

/// What `str::trim` returns for a string with these symbols.
pub uninterp spec fn trimmed(s: Seq<char>) -> Seq<char>;

/// Relies on `str::trim`: the string without its leading and trailing
/// whitespace, which depends on the symbols alone.
#[verifier::external_body]
fn trim(s: &str) -> (r: &str)
    ensures
        r@ == trimmed(s@),
{
    s.trim()
}

proof fn lemma_find_label(recs: Seq<(Seq<char>, Seq<char>)>, label: Seq<char>)
    ensures
        -1 <= find_label(recs, label) < recs.len(),
        find_label(recs, label) >= 0 ==> recs[find_label(recs, label)].0 == label,
        find_label(recs, label) < 0 ==> forall|k: int| 0 <= k < recs.len() ==> recs[k].0 != label,
    decreases recs.len(),
{
    if recs.len() > 0 && recs.last().0 != label {
        lemma_find_label(recs.drop_last(), label);
        assert forall|k: int| 0 <= k < recs.len() && find_label(recs, label) < 0 implies recs[k].0
            != label by {
            if k < recs.len() - 1 {
                assert(recs.drop_last()[k] == recs[k]);
            }
        }
    }
}

/// Index of the last record labelled `label`.
fn find_record(records: &Vec<(String, String)>, label: &Vec<char>) -> (r: Option<usize>)
    ensures
        match r {
            Some(k) => find_label(records_view(records@), label@) == k,
            None => find_label(records_view(records@), label@) == -1,
        },
{
    let ghost rv = records_view(records@);
    let mut k: usize = records.len();
    assert(rv.take(k as int) =~= rv);
    while k > 0
        invariant
            k <= records@.len(),
            rv == records_view(records@),
            find_label(rv, label@) == find_label(rv.take(k as int), label@),
        decreases k,
    {
        let chars = chars_of(records[k - 1].0.as_str());
        let mut same = chars.len() == label.len();
        let mut j: usize = 0;
        while same && j < chars.len()
            invariant
                same ==> chars@.len() == label@.len(),
                j <= chars@.len(),
                same ==> forall|x: int| 0 <= x < j ==> chars@[x] == label@[x],
                !same ==> chars@ != label@,
            decreases chars.len() - j,
        {
            if chars[j] != label[j] {
                same = false;
            }
            j = j + 1;
        }
        if same {
            assert(chars@ =~= label@);
        }
        let ghost pre = rv.take(k as int);
        assert(pre.last() == rv[k - 1]);
        assert(pre.drop_last() =~= rv.take(k - 1));
        if same {
            return Some(k - 1);
        }
        k = k - 1;
    }
    assert(rv.take(0) =~= Seq::<(Seq<char>, Seq<char>)>::empty());
    None
}

/// Sets the record of `label` to `content`, or adds it last.
fn upsert_record(records: &mut Vec<(String, String)>, label: &Vec<char>, content: String)
    requires
        labels_distinct(records_view(old(records)@)),
    ensures
        records_view(final(records)@) == upsert(records_view(old(records)@), label@, content@),
        labels_distinct(records_view(final(records)@)),
{
    let ghost before = records_view(records@);
    proof {
        lemma_find_label(before, label@);
    }
    let name = vec_to_string(label.clone());
    match find_record(records, label) {
        Some(k) => {
            records.set(k, (name, content));
            assert(records_view(records@) =~= before.update(k as int, (label@, content@)));
        },
        None => {
            records.push((name, content));
            assert(records_view(records@) =~= before.push((label@, content@)));
        },
    }
}

/// Decodes FASTA text: a line that starts with `>` begins a record labelled by
/// the rest of the line; other lines, trimmed of surrounding whitespace, are
/// appended to the current record. Records come in order of first appearance.
pub fn parse_fasta(data: &str) -> (r: Vec<(String, String)>)
    ensures
        records_view(r@) == fasta_records(data@),
        labels_distinct(records_view(r@)),
{
    let s = chars_of(data);
    let ghost sv = data@;
    let n = s.len();
    let mut result: Vec<(String, String)> = Vec::new();
    let mut saved_label: Vec<char> = Vec::new();
    let mut i: usize = 0;
    assert(records_view(result@) =~= Seq::<(Seq<char>, Seq<char>)>::empty());
    assert(saved_label@ =~= Seq::<char>::empty());
    while i < n
        invariant
            s@ == sv,
            sv == data@,
            n == sv.len(),
            i <= n,
            labels_distinct(records_view(result@)),
            fasta_records(sv) == fasta_run((records_view(result@), saved_label@), lines_from(sv, i as int)).0,
        decreases n - i,
    {
        proof {
            lemma_line_end(sv, i as int);
        }
        let mut e: usize = i;
        while e < n && s[e] != '\n'
            invariant
                s@ == sv,
                n == sv.len(),
                i <= e <= n,
                line_end(sv, i as int) == line_end(sv, e as int),
            decreases n - e,
        {
            e = e + 1;
        }
        let end = if e < n && e > i && s[e - 1] == '\r' { e - 1 } else { e };
        let mut line: Vec<char> = Vec::new();
        let mut j: usize = i;
        while j < end
            invariant
                s@ == sv,
                i <= j <= end,
                end <= n,
                n == sv.len(),
                line@ == sv.subrange(i as int, j as int),
            decreases end - j,
        {
            line.push(s[j]);
            assert(line@ =~= sv.subrange(i as int, j + 1));
            j = j + 1;
        }
        assert(line@ == line_at(sv, i as int));
        let ghost st = (records_view(result@), saved_label@);
        if line.len() > 0 && line[0] == '>' {
            let mut label: Vec<char> = Vec::new();
            let mut x: usize = 1;
            while x < line.len()
                invariant
                    1 <= x <= line@.len(),
                    label@ == line@.subrange(1, x as int),
                decreases line.len() - x,
            {
                label.push(line[x]);
                assert(label@ =~= line@.subrange(1, x + 1));
                x = x + 1;
            }
            assert(label@ =~= line@.skip(1));
            upsert_record(&mut result, &label, String::new());
            saved_label = label;
        } else {
            let text = vec_to_string(line);
            let piece = trim(text.as_str());
            proof {
                lemma_find_label(st.0, saved_label@);
            }
            let mut content = match find_record(&result, &saved_label) {
                Some(k) => result[k].1.clone(),
                None => String::new(),
            };
            content.append(piece);
            upsert_record(&mut result, &saved_label, content);
        }
        assert(fasta_step(st, line_at(sv, i as int)) == (records_view(result@), saved_label@));
        let ghost ls = lines_from(sv, i as int);
        assert(ls[0] == line_at(sv, i as int));
        assert(ls.skip(1) =~= lines_from(sv, e + 1));
        if e == n {
            assert(lines_from(sv, e + 1) =~= Seq::<Seq<char>>::empty());
            assert(lines_from(sv, n as int) =~= Seq::<Seq<char>>::empty());
            i = n;
        } else {
            i = e + 1;
        }
    }
    assert(lines_from(sv, n as int) =~= Seq::<Seq<char>>::empty());
    result
}

} // verus!
