use vstd::prelude::*;

use vstd::string::StringExecFns;

use crate::base::{Base, base_of_code, code_of, complement_of, symbol_of};

verus! {

/// How many times each base occurs in a sequence.
#[allow(non_snake_case)]
#[derive(Debug, Copy, Clone, PartialEq, Eq, Structural)]
pub struct BaseCount {
    pub A: u64,
    pub C: u64,
    pub G: u64,
    pub T: u64,
}

/// An ordered list of bases.
#[derive(Debug, Clone)]
pub struct Sequence(pub Vec<Base>);

impl View for Sequence {
    type V = Seq<Base>;

    open spec fn view(&self) -> Seq<Base> {
        self.0@
    }
}

/// The base that a symbol names, if it is one of the four upper-case letters.
pub open spec fn base_of_symbol(c: char) -> Option<Base> {
    if c == 'A' {
        Some(Base::A)
    } else if c == 'C' {
        Some(Base::C)
    } else if c == 'G' {
        Some(Base::G)
    } else if c == 'T' {
        Some(Base::T)
    } else {
        None
    }
}

/// Whether a symbol names a base.
pub open spec fn is_base_symbol(c: char) -> bool {
    base_of_symbol(c) is Some
}

/// The bases named in `cs`, in order; every other symbol is skipped.
pub open spec fn bases_of(cs: Seq<char>) -> Seq<Base>
    decreases cs.len(),
{
    if cs.len() == 0 {
        Seq::empty()
    } else {
        let front = bases_of(cs.drop_last());
        match base_of_symbol(cs.last()) {
            Some(b) => front.push(b),
            None => front,
        }
    }
}

/// How many times `b` occurs in `s`.
pub open spec fn occurrences(s: Seq<Base>, b: Base) -> nat
    decreases s.len(),
{
    if s.len() == 0 {
        0
    } else {
        occurrences(s.drop_last(), b) + if s.last() == b { 1nat } else { 0nat }
    }
}

/// The two-bit field `i` of a packed word, counted from the most significant end.
pub open spec fn field_at(word: u64, i: int) -> u64 {
    (word >> ((62 - 2 * i) as u64)) & 3
}

/// Up to 32 bases packed into a word, two bits each, the first base in the
/// most significant field and the fields past the last base zero.
pub open spec fn pack_word(bases: Seq<Base>) -> u64
    decreases bases.len(),
{
    if bases.len() == 0 {
        0
    } else {
        let k = bases.len() - 1;
        pack_word(bases.drop_last()) | (code_of(bases.last()) << ((62 - 2 * k) as u64))
    }
}

/// The first `len` fields of `word`, most significant first, read as bases.
pub open spec fn unpack_word(word: u64, len: nat) -> Seq<Base> {
    Seq::new(len, |k: int| base_of_code(field_at(word, k))->0)
}

/// The complements of the bases of `s`, read from its end to its start.
pub open spec fn reverse_complement_of(s: Seq<Base>) -> Seq<Base> {
    Seq::new(s.len(), |k: int| complement_of(s[s.len() - 1 - k]))
}

/// The letters that name the bases of `s`, in order.
pub open spec fn symbols_of(s: Seq<Base>) -> Seq<char> {
    Seq::new(s.len(), |k: int| symbol_of(s[k]))
}

proof fn lemma_set_field(r: u64, c: u64, i: u64, k: u64)
    requires
        c <= 3,
        i < 32,
        k < 32,
        (r >> ((62 - 2 * i) as u64)) & 3 == 0,
    ensures
        ((r | (c << ((62 - 2 * i) as u64))) >> ((62 - 2 * k) as u64)) & 3 == if k == i {
            c
        } else {
            (r >> ((62 - 2 * k) as u64)) & 3
        },
{
    assert(((r | (c << ((62 - 2 * i) as u64))) >> ((62 - 2 * k) as u64)) & 3 == if k == i {
        c
    } else {
        (r >> ((62 - 2 * k) as u64)) & 3
    }) by (bit_vector)
        requires
            c <= 3,
            i < 32,
            k < 32,
            (r >> ((62 - 2 * i) as u64)) & 3 == 0,
    ;
}

/// A packed word holds the code of base `k` in field `k`, and zero in every
/// field past the last base.
pub proof fn lemma_pack_word_fields(bases: Seq<Base>)
    requires
        bases.len() <= 32,
    ensures
        forall|k: int|
            0 <= k < 32 ==> #[trigger] field_at(pack_word(bases), k) == if k < bases.len() {
                code_of(bases[k])
            } else {
                0
            },
    decreases bases.len(),
{
    if bases.len() > 0 {
        let front = bases.drop_last();
        let n = front.len();
        lemma_pack_word_fields(front);
        let r = pack_word(front);
        let c = code_of(bases.last());
        assert forall|k: int| 0 <= k < 32 implies #[trigger] field_at(pack_word(bases), k) == if k
            < bases.len() {
            code_of(bases[k])
        } else {
            0
        } by {
            assert(field_at(r, n as int) == 0);
            assert(pack_word(bases) == r | (c << ((62 - 2 * n) as u64)));
            let ku = k as u64;
            let nu = n as u64;
            assert((62 - 2 * ku) as u64 == (62 - 2 * k) as u64);
            assert((62 - 2 * nu) as u64 == (62 - 2 * n) as u64);
            lemma_set_field(r, c, nu, ku);
            assert(field_at(r, k) == (r >> ((62 - 2 * ku) as u64)) & 3);
            if k == n {
                assert(bases[k] == bases.last());
            }
            if k < n {
                assert(bases[k] == front[k]);
            }
        }
    } else {
        assert forall|k: int| 0 <= k < 32 implies #[trigger] field_at(pack_word(bases), k) == 0 by {
            let sh = (62 - 2 * k) as u64;
            assert((0u64 >> sh) & 3 == 0) by (bit_vector);
        }
    }
}

/// Unpacking the packed form of at most 32 bases gives the bases back.
pub proof fn lemma_pack_round_trip(bases: Seq<Base>)
    requires
        bases.len() <= 32,
    ensures
        unpack_word(pack_word(bases), bases.len()) == bases,
{
    lemma_pack_word_fields(bases);
    assert forall|k: int| 0 <= k < bases.len() implies unpack_word(pack_word(bases), bases.len())[k]
        == bases[k] by {
        assert(field_at(pack_word(bases), k) == code_of(bases[k]));
    }
    assert(unpack_word(pack_word(bases), bases.len()) =~= bases);
}

/// The packed form of no bases is the zero word.
pub proof fn lemma_pack_empty()
    ensures
        pack_word(Seq::empty()) == 0,
{
}

/// Each base counts once: the four counts add up to the length.
pub proof fn lemma_occurrences_total(s: Seq<Base>)
    ensures
        occurrences(s, Base::A) + occurrences(s, Base::C) + occurrences(s, Base::G) + occurrences(
            s,
            Base::T,
        ) == s.len(),
    decreases s.len(),
{
    if s.len() > 0 {
        lemma_occurrences_total(s.drop_last());
    }
}

/// Taking the reverse complement twice gives the sequence back.
pub proof fn lemma_reverse_complement_involution(s: Seq<Base>)
    ensures
        reverse_complement_of(reverse_complement_of(s)) == s,
{
    assert(reverse_complement_of(reverse_complement_of(s)) =~= s);
}

/// Symbols that name no base change nothing: the bases read from a text are
/// those read from its base letters alone, in the same order.
pub proof fn lemma_bases_of_skips_other_symbols(cs: Seq<char>)
    ensures
        bases_of(cs) == bases_of(cs.filter(|c: char| is_base_symbol(c))),
    decreases cs.len(),
{
    let pred = |c: char| is_base_symbol(c);
    reveal(Seq::filter);
    if cs.len() > 0 {
        lemma_bases_of_skips_other_symbols(cs.drop_last());
        let front = cs.drop_last().filter(pred);
        assert(cs.filter(pred) == if pred(cs.last()) {
            front.push(cs.last())
        } else {
            front
        });
        if pred(cs.last()) {
            assert(front.push(cs.last()).drop_last() =~= front);
        }
    }
}

impl PartialEq for Sequence {
    fn eq(&self, other: &Sequence) -> (r: bool) {
        let n = self.0.len();
        if n != other.0.len() {
            return false;
        }
        let mut i: usize = 0;
        while i < n
            invariant
                n == self@.len(),
                n == other@.len(),
                i <= n,
                forall|k: int| 0 <= k < i ==> self@[k] == other@[k],
            decreases n - i,
        {
            if self.0[i] != other.0[i] {
                return false;
            }
            i = i + 1;
        }
        proof {
            assert(self@ =~= other@);
        }
        true
    }
}

impl vstd::std_specs::cmp::PartialEqSpecImpl for Sequence {
    open spec fn obeys_eq_spec() -> bool {
        true
    }

    open spec fn eq_spec(&self, other: &Sequence) -> bool {
        self@ == other@
    }
}

impl Eq for Sequence {
}

impl Sequence {
    /// Builds a sequence from the upper-case letters A, C, G and T in `s`, in
    /// order; every other symbol is skipped.
    pub fn new(s: &str) -> (r: Sequence)
        ensures
            r@ == bases_of(s@),
    {
        let mut result: Vec<Base> = Vec::new();
        let ghost cs = s@;
        for v in it: s.chars()
            invariant
                it.seq() == cs,
                result@ == bases_of(cs.subrange(0, it.index() as int)),
        {
            proof {
                let k = it.index() as int;
                assert(cs.subrange(0, k + 1).drop_last() =~= cs.subrange(0, k));
            }
            match v {
                'A' => result.push(Base::A),
                'T' => result.push(Base::T),
                'C' => result.push(Base::C),
                'G' => result.push(Base::G),
                _ => {},
            }
        }
        proof {
            assert(cs.subrange(0, cs.len() as int) =~= cs);
        }
        Sequence(result)
    }

    /// Reads the first `length` two-bit fields of `num`, most significant first,
    /// as bases; a `length` over 32 reads all 32.
    pub fn from_u64(num: u64, length: u8) -> (r: Sequence)
        ensures
            r@ == unpack_word(num, if length <= 32 { length as nat } else { 32 }),
    {
        let mut result: Vec<Base> = Vec::new();
        let end: u64 = if length <= 32 { length as u64 } else { 32 };
        let mut i: u64 = 0;
        while i < end
            invariant
                end <= 32,
                i <= end,
                result@ == unpack_word(num, i as nat),
            decreases end - i,
        {
            let code: u64 = num << (2 * i) >> 62;
            assert(code == (num >> ((62 - 2 * i) as u64)) & 3 && code < 4) by (bit_vector)
                requires
                    i < 32,
                    code == num << (2 * i) >> 62,
            ;
            result.push(Base::from_u64(code).unwrap());
            i = i + 1;
            proof {
                assert(result@ =~= unpack_word(num, i as nat));
            }
        }
        Sequence(result)
    }

    /// Packs the `length` bases from `start` into a word, two bits each, the
    /// base at `start` in the most significant field and the fields past the
    /// last base zero. `None` when `length` is over 32 or the range runs past
    /// the end of the sequence.
    pub fn subsequence_as_u64(&self, start: usize, length: usize) -> (r: Option<u64>)
        ensures
            r is None <==> (length > 32 || start + length > self@.len()),
            r is Some ==> r->0 == pack_word(self@.subrange(start as int, start + length)),
            r is Some && length == 0 ==> r->0 == 0,
    {
        let n = self.0.len();
        if length > 32 || start > n || length > n - start {
            return None;
        }
        let mut result: u64 = 0;
        let mut i: usize = 0;
        while i < length
            invariant
                length <= 32,
                start + length <= n,
                n == self@.len(),
                i <= length,
                result == pack_word(self@.subrange(start as int, start + i)),
            decreases length - i,
        {
            proof {
                assert(self@.subrange(start as int, start + i + 1).drop_last() =~= self@.subrange(
                    start as int,
                    start + i,
                ));
            }
            result = result | (self.0[start + i].to_u64() << (62 - 2 * (i as u64)));
            i = i + 1;
        }
        Some(result)
    }

    /// Counts how many times each base occurs.
    pub fn count_bases(&self) -> (r: BaseCount)
        ensures
            r.A == occurrences(self@, Base::A),
            r.C == occurrences(self@, Base::C),
            r.G == occurrences(self@, Base::G),
            r.T == occurrences(self@, Base::T),
            r.A + r.C + r.G + r.T == self@.len(),
    {
        let mut result = BaseCount { A: 0, C: 0, G: 0, T: 0 };
        let n = self.0.len();
        let mut i: usize = 0;
        while i < n
            invariant
                n == self@.len(),
                i <= n,
                result.A == occurrences(self@.subrange(0, i as int), Base::A),
                result.C == occurrences(self@.subrange(0, i as int), Base::C),
                result.G == occurrences(self@.subrange(0, i as int), Base::G),
                result.T == occurrences(self@.subrange(0, i as int), Base::T),
            decreases n - i,
        {
            proof {
                let front = self@.subrange(0, i as int);
                assert(self@.subrange(0, i + 1).drop_last() =~= front);
                lemma_occurrences_total(front);
            }
            match self.0[i] {
                Base::A => result.A = result.A + 1,
                Base::C => result.C = result.C + 1,
                Base::G => result.G = result.G + 1,
                Base::T => result.T = result.T + 1,
            }
            i = i + 1;
        }
        proof {
            assert(self@.subrange(0, n as int) =~= self@);
            lemma_occurrences_total(self@);
        }
        result
    }

    /// The complements of the bases, read from the end to the start.
    pub fn reverse_complement(&self) -> (r: Sequence)
        ensures
            r@ == reverse_complement_of(self@),
    {
        let mut result: Vec<Base> = Vec::new();
        let n = self.0.len();
        let mut i: usize = n;
        while i > 0
            invariant
                n == self@.len(),
                i <= n,
                result@ =~= reverse_complement_of(self@).subrange(0, n - i),
            decreases i,
        {
            i = i - 1;
            result.push(self.0[i].complement());
        }
        proof {
            assert(reverse_complement_of(self@).subrange(0, n as int) =~= reverse_complement_of(self@));
        }
        Sequence(result)
    }

    /// The letters of the bases, in order, with no separators.
    pub fn to_string(&self) -> (r: String)
        ensures
            r@ == symbols_of(self@),
    {
        let mut result = String::new();
        let n = self.0.len();
        let mut i: usize = 0;
        while i < n
            invariant
                n == self@.len(),
                i <= n,
                result@ =~= symbols_of(self@).subrange(0, i as int),
            decreases n - i,
        {
            result.append(self.0[i].to_str());
            i = i + 1;
        }
        proof {
            assert(symbols_of(self@).subrange(0, n as int) =~= symbols_of(self@));
        }
        result
    }
}

} // verus!
