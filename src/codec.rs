//! Two-bit packing of k-mers, reverse complement, canonical strand and
//! family keys.
//!
//! A k-mer of length `k` is packed most significant base first, with
//! A=0, C=1, G=2, T=3; the complement of a base code `b` is `3 - b`.
use vstd::prelude::*;
use vstd::arithmetic::div_mod::{lemma_div_denominator, lemma_fundamental_div_mod_converse};

verus! {

/// Longest k-mer whose packed form fits in a `u64` and has a middle base.
pub const MAX_KMER_LENGTH: usize = 31;

/// `4^n`.
pub open spec fn pow4(n: nat) -> nat
    decreases n,
{
    if n == 0 {
        1
    } else {
        4 * pow4((n - 1) as nat)
    }
}

/// The `k` base codes of the packed value `x`, most significant first.
pub open spec fn bases_of(x: nat, k: nat) -> Seq<nat>
    decreases k,
{
    if k == 0 {
        Seq::empty()
    } else {
        bases_of(x / 4, (k - 1) as nat).push(x % 4)
    }
}

/// The packed value of a sequence of base codes, most significant first.
pub open spec fn value_of(s: Seq<nat>) -> nat
    decreases s.len(),
{
    if s.len() == 0 {
        0
    } else {
        value_of(s.drop_last()) * 4 + s.last()
    }
}

/// Every element is a base code.
pub open spec fn all_codes(s: Seq<nat>) -> bool {
    forall|i: int| 0 <= i < s.len() ==> #[trigger] s[i] < 4
}

/// The reverse complement of a sequence of base codes.
pub open spec fn revcomp(s: Seq<nat>) -> Seq<nat> {
    Seq::new(s.len(), |i: int| (3 - s[s.len() - 1 - i]) as nat)
}

/// Whether the byte is a nucleotide letter, in either case.
pub open spec fn is_base(c: u8) -> bool {
    c == 65 || c == 67 || c == 71 || c == 84 || c == 97 || c == 99 || c == 103 || c == 116
}

/// The code of a nucleotide letter (A=0, C=1, G=2, T=3, either case).
pub open spec fn code_of(c: u8) -> nat {
    if c == 67 || c == 99 {
        1
    } else if c == 71 || c == 103 {
        2
    } else if c == 84 || c == 116 {
        3
    } else {
        0
    }
}

/// Whether every byte of the text is a nucleotide letter.
pub open spec fn all_bases(w: Seq<u8>) -> bool {
    forall|i: int| 0 <= i < w.len() ==> is_base(#[trigger] w[i])
}

/// The base codes of a text of nucleotide letters.
pub open spec fn codes_of(w: Seq<u8>) -> Seq<nat> {
    w.map_values(|c: u8| code_of(c))
}

/// The upper-case letter of a base code.
pub open spec fn letter_of(b: nat) -> char {
    if b == 0 {
        'A'
    } else if b == 1 {
        'C'
    } else if b == 2 {
        'G'
    } else {
        'T'
    }
}

/// The text of a sequence of base codes.
pub open spec fn letters_of(s: Seq<nat>) -> Seq<char> {
    s.map_values(|b: nat| letter_of(b))
}

pub proof fn lemma_pow4_positive(n: nat)
    ensures
        pow4(n) >= 1,
    decreases n,
{
    if n > 0 {
        lemma_pow4_positive((n - 1) as nat);
    }
}

pub proof fn lemma_pow4_monotone(a: nat, b: nat)
    requires
        a <= b,
    ensures
        pow4(a) <= pow4(b),
    decreases b,
{
    if a < b {
        lemma_pow4_monotone(a, (b - 1) as nat);
        lemma_pow4_positive((b - 1) as nat);
    }
}

/// `4^31` is below `2^64`.
pub proof fn lemma_pow4_max()
    ensures
        pow4(MAX_KMER_LENGTH as nat) == 0x4000_0000_0000_0000,
{
    reveal_with_fuel(pow4, 32);
}

/// A packed sequence of base codes is below `4^len`.
pub proof fn lemma_value_bound(s: Seq<nat>)
    requires
        all_codes(s),
    ensures
        value_of(s) < pow4(s.len()),
    decreases s.len(),
{
    if s.len() > 0 {
        let t = s.drop_last();
        assert(all_codes(t));
        lemma_value_bound(t);
        assert(s[s.len() - 1] < 4);
    }
}

/// Packing then unpacking gives the sequence back.
pub proof fn lemma_bases_of_value(s: Seq<nat>)
    requires
        all_codes(s),
    ensures
        bases_of(value_of(s), s.len()) == s,
    decreases s.len(),
{
    if s.len() > 0 {
        let t = s.drop_last();
        assert(all_codes(t));
        lemma_bases_of_value(t);
        let v = value_of(s);
        assert(s.last() < 4);
        lemma_fundamental_div_mod_converse(v as int, 4, value_of(t) as int, s.last() as int);
        assert(bases_of(v, s.len()) =~= s);
    }
}

pub proof fn lemma_bases_len(x: nat, k: nat)
    ensures
        bases_of(x, k).len() == k,
    decreases k,
{
    if k > 0 {
        lemma_bases_len(x / 4, (k - 1) as nat);
    }
}

/// Unpacking then packing gives the value back.
pub proof fn lemma_value_of_bases(x: nat, k: nat)
    requires
        x < pow4(k),
    ensures
        value_of(bases_of(x, k)) == x,
        bases_of(x, k).len() == k,
        all_codes(bases_of(x, k)),
    decreases k,
{
    if k > 0 {
        let s = bases_of(x, k);
        assert(x / 4 < pow4((k - 1) as nat));
        lemma_value_of_bases(x / 4, (k - 1) as nat);
        assert(s.drop_last() =~= bases_of(x / 4, (k - 1) as nat));
    }
}

/// The base at position `i` of `x` is a digit of `x` in base 4.
pub proof fn lemma_base_digit(x: nat, k: nat, i: nat)
    requires
        i < k,
    ensures
        bases_of(x, k)[i as int] == (x / pow4((k - 1 - i) as nat)) % 4,
    decreases k,
{
    if i < k - 1 {
        lemma_base_digit(x / 4, (k - 1) as nat, i);
        let p = pow4((k - 2 - i) as nat);
        lemma_pow4_positive((k - 2 - i) as nat);
        lemma_div_denominator(x as int, 4, p as int);
        assert(pow4((k - 1 - i) as nat) == 4 * p);
        lemma_bases_len(x / 4, (k - 1) as nat);
        assert(bases_of(x, k)[i as int] == bases_of(x / 4, (k - 1) as nat)[i as int]);
    } else {
        lemma_bases_len(x / 4, (k - 1) as nat);
        assert(pow4(0) == 1);
        assert(x / 1 == x);
        assert(bases_of(x, k)[i as int] == x % 4);
    }
}

/// Changing one base changes the packed value by the difference times its weight.
pub proof fn lemma_value_update(s: Seq<nat>, i: int, b: nat)
    requires
        0 <= i < s.len(),
    ensures
        value_of(s.update(i, b)) + s[i] * pow4((s.len() - 1 - i) as nat) == value_of(s) + b
            * pow4((s.len() - 1 - i) as nat),
    decreases s.len(),
{
    let n = s.len();
    let u = s.update(i, b);
    if i == n - 1 {
        assert(u.drop_last() =~= s.drop_last());
        assert(u.last() == b);
        assert(pow4(0) == 1);
        assert((s.len() - 1 - i) as nat == 0);
        assert(value_of(u) == value_of(s.drop_last()) * 4 + b);
        assert(value_of(s) == value_of(s.drop_last()) * 4 + s[i]);
        let one = pow4((s.len() - 1 - i) as nat);
        assert(one == 1);
        assert(s[i] * one == s[i] && b * one == b) by (nonlinear_arith)
            requires
                one == 1,
        ;
    } else {
        assert(u.last() == s.last());
        let t = s.drop_last();
        assert(u.drop_last() =~= t.update(i, b));
        lemma_value_update(t, i, b);
        let w = pow4((n - 2 - i) as nat);
        assert(pow4((n - 1 - i) as nat) == 4 * w);
        let vu = value_of(t.update(i, b));
        let vt = value_of(t);
        assert(t[i] == s[i]);
        assert((t.len() - 1 - i) as nat == (n - 2 - i) as nat);
        assert(vu + s[i] * w == vt + b * w);
        assert(value_of(u) == vu * 4 + s.last());
        assert(value_of(s) == vt * 4 + s.last());
        assert(vu * 4 + s[i] * (4 * w) == vt * 4 + b * (4 * w)) by (nonlinear_arith)
            requires
                vu + s[i] * w == vt + b * w,
        ;
    }
}

/// Reverse complement keeps base codes and undoes itself.
pub proof fn lemma_revcomp(s: Seq<nat>)
    requires
        all_codes(s),
    ensures
        all_codes(revcomp(s)),
        revcomp(s).len() == s.len(),
        revcomp(revcomp(s)) == s,
{
    assert(revcomp(revcomp(s)) =~= s);
}

/// Packing a concatenation: the first part is shifted by the length of the second.
pub proof fn lemma_value_split(a: Seq<nat>, b: Seq<nat>)
    ensures
        value_of(a + b) == value_of(a) * pow4(b.len()) + value_of(b),
    decreases b.len(),
{
    if b.len() == 0 {
        assert(a + b =~= a);
        assert(pow4(0) == 1);
        assert(value_of(a) * 1 == value_of(a));
    } else {
        let b2 = b.drop_last();
        assert((a + b).drop_last() =~= a + b2);
        assert((a + b).last() == b.last());
        lemma_value_split(a, b2);
        let va = value_of(a);
        let p = pow4(b2.len());
        let v2 = value_of(b2);
        assert(pow4(b.len()) == 4 * p);
        assert((va * p + v2) * 4 + b.last() == va * (4 * p) + (v2 * 4 + b.last()))
            by (nonlinear_arith);
    }
}

/// Packed values of equal-length sequences are ordered by their first difference.
pub proof fn lemma_value_lex(p: Seq<nat>, q: Seq<nat>, j: int)
    requires
        p.len() == q.len(),
        all_codes(p),
        all_codes(q),
        0 <= j < p.len(),
        forall|i: int| 0 <= i < j ==> p[i] == q[i],
        p[j] < q[j],
    ensures
        value_of(p) < value_of(q),
{
    let n = p.len() as int;
    let p1 = p.subrange(0, j + 1);
    let q1 = q.subrange(0, j + 1);
    let pt = p.subrange(j + 1, n);
    let qt = q.subrange(j + 1, n);
    assert(p =~= p1 + pt);
    assert(q =~= q1 + qt);
    lemma_value_split(p1, pt);
    lemma_value_split(q1, qt);
    assert(all_codes(pt));
    assert(all_codes(qt));
    lemma_value_bound(pt);
    assert(p1.drop_last() =~= q1.drop_last());
    let vp1 = value_of(p1);
    let vq1 = value_of(q1);
    assert(vp1 + 1 <= vq1);
    let w = pow4(pt.len());
    assert(qt.len() == pt.len());
    let vpt = value_of(pt);
    let vqt = value_of(qt);
    assert(vp1 * w + vpt < vq1 * w + vqt) by (nonlinear_arith)
        requires
            vp1 + 1 <= vq1,
            vpt < w,
            0 <= vqt,
    ;
}

/// The reverse complement of a sequence with one base changed is the
/// reverse complement with the mirrored base changed to the complement.
pub proof fn lemma_revcomp_update(s: Seq<nat>, i: int, b: nat)
    requires
        all_codes(s),
        0 <= i < s.len(),
        b < 4,
    ensures
        revcomp(s.update(i, b)) == revcomp(s).update(s.len() - 1 - i, (3 - b) as nat),
{
    assert(revcomp(s.update(i, b)) =~= revcomp(s).update(s.len() - 1 - i, (3 - b) as nat));
}


/// The largest packed k-mer is all T.
pub proof fn lemma_all_t(k: nat)
    ensures
        value_of(Seq::new(k, |i: int| 3nat)) + 1 == pow4(k),
        bases_of((pow4(k) - 1) as nat, k) == Seq::new(k, |i: int| 3nat),
    decreases k,
{
    let s = Seq::new(k, |i: int| 3nat);
    if k > 0 {
        lemma_all_t((k - 1) as nat);
        assert(s.drop_last() =~= Seq::new((k - 1) as nat, |i: int| 3nat));
    }
    assert(all_codes(s));
    lemma_bases_of_value(s);
}

/// The index of the middle base of a k-mer of odd length `k`; its weight in
/// the packed value is `4^(k/2)`.
pub open spec fn middle(k: nat) -> nat {
    k / 2
}

/// Packing parameters for k-mers of one odd length.
#[derive(Clone, Copy, Debug)]
pub struct KmerCodec {
    k: usize,
    middle_weight: u64,
}

/// A byte that is not a nucleotide letter.
#[derive(Clone, Copy, Debug, PartialEq, Eq)]
pub struct InvalidBase;

impl KmerCodec {
    /// The k-mer length.
    pub closed spec fn len(&self) -> nat {
        self.k as nat
    }

    pub closed spec fn wf(&self) -> bool {
        &&& 1 <= self.k <= MAX_KMER_LENGTH
        &&& self.k % 2 == 1
        &&& self.middle_weight == pow4(middle(self.k as nat))
    }

    /// The length of a well-formed codec is odd and at most `MAX_KMER_LENGTH`.
    pub proof fn lemma_len(&self)
        requires
            self.wf(),
        ensures
            1 <= self.len() <= MAX_KMER_LENGTH,
            self.len() % 2 == 1,
            middle(self.len()) < self.len(),
    {
    }

    /// Whether `x` packs a k-mer of this length.
    pub open spec fn valid(&self, x: nat) -> bool {
        x < pow4(self.len())
    }

    /// The bases of the packed k-mer `x`.
    pub open spec fn kmer(&self, x: nat) -> Seq<nat> {
        bases_of(x, self.len())
    }

    /// The packed reverse complement of `x`.
    pub open spec fn reverse_complement_spec(&self, x: nat) -> nat {
        value_of(revcomp(self.kmer(x)))
    }

    /// The smaller of a k-mer and its reverse complement.
    pub open spec fn canonical_spec(&self, x: nat) -> nat {
        let r = self.reverse_complement_spec(x);
        if x <= r {
            x
        } else {
            r
        }
    }

    /// `x` with its middle base set to `b`.
    pub open spec fn with_middle_base_spec(&self, x: nat, b: nat) -> nat {
        value_of(self.kmer(x).update(middle(self.len()) as int, b))
    }

    /// The canonical form of `x` with its middle base cleared to A.
    pub open spec fn family_key_spec(&self, x: nat) -> nat {
        self.with_middle_base_spec(self.canonical_spec(x), 0)
    }

    /// Builds a codec for k-mers of length `k`, which must be odd and at most
    /// `MAX_KMER_LENGTH`.
    pub fn new(k: usize) -> (r: Result<KmerCodec, InvalidLength>)
        ensures
            r is Ok <==> (k % 2 == 1 && k <= MAX_KMER_LENGTH),
            r matches Ok(c) ==> c.wf() && c.len() == k,
            k % 2 == 0 ==> r == Err::<KmerCodec, InvalidLength>(InvalidLength::Even),
            (k % 2 == 1 && k > MAX_KMER_LENGTH) ==> r == Err::<KmerCodec, InvalidLength>(
                InvalidLength::TooLong,
            ),
    {
        if k % 2 == 0 {
            return Err(InvalidLength::Even);
        }
        if k > MAX_KMER_LENGTH {
            return Err(InvalidLength::TooLong);
        }
        let m = k / 2;
        let mut w: u64 = 1;
        let mut i: usize = 0;
        while i < m
            invariant
                i <= m,
                m == k / 2,
                k <= MAX_KMER_LENGTH,
                w == pow4(i as nat),
            decreases m - i,
        {
            proof {
                lemma_pow4_monotone((i + 1) as nat, MAX_KMER_LENGTH as nat);
                lemma_pow4_max();
            }
            w = w * 4;
            i = i + 1;
        }
        Ok(KmerCodec { k, middle_weight: w })
    }

    /// The k-mer length.
    pub fn kmer_length(&self) -> (r: usize)
        ensures
            r == self.len(),
    {
        self.k
    }

    /// Packs the window of `k` bytes of `read` that starts at `start`, or
    /// fails if one of them is not a nucleotide letter.
    pub fn encode_at(&self, read: &[u8], start: usize) -> (r: Result<u64, InvalidBase>)
        requires
            self.wf(),
            start + self.len() <= read@.len(),
        ensures
            r is Ok <==> all_bases(read@.subrange(start as int, start + self.len())),
            r matches Ok(x) ==> self.valid(x as nat) && x == value_of(
                codes_of(read@.subrange(start as int, start + self.len())),
            ),
    {
        let ghost w = read@.subrange(start as int, start + self.len());
        let n = read.len();
        let mut v: u64 = 0;
        let mut i: usize = 0;
        while i < self.k
            invariant
                self.wf(),
                start + self.len() <= read@.len(),
                n == read@.len(),
                w == read@.subrange(start as int, start + self.len()),
                i <= self.k,
                all_bases(w.subrange(0, i as int)),
                v == value_of(codes_of(w.subrange(0, i as int))),
                v < pow4(i as nat),
            decreases self.k - i,
        {
            assert(start + i < read@.len());
            let c = read[start + i];
            let d: u64 = if c == 65 || c == 97 {
                0
            } else if c == 67 || c == 99 {
                1
            } else if c == 71 || c == 103 {
                2
            } else if c == 84 || c == 116 {
                3
            } else {
                assert(!all_bases(w)) by {
                    assert(w[i as int] == c);
                }
                return Err(InvalidBase);
            };
            proof {
                let p = w.subrange(0, i as int);
                let q = w.subrange(0, i + 1);
                assert(q.drop_last() =~= p);
                assert(codes_of(q).drop_last() =~= codes_of(p));
                assert(codes_of(q).last() == d);
                assert(all_bases(q)) by {
                    assert forall|j: int| 0 <= j < q.len() implies is_base(#[trigger] q[j]) by {
                        if j < i {
                            assert(q[j] == p[j]);
                        }
                    }
                }
                lemma_pow4_monotone((i + 1) as nat, MAX_KMER_LENGTH as nat);
                lemma_pow4_max();
            }
            v = v * 4 + d;
            i = i + 1;
        }
        assert(w.subrange(0, i as int) =~= w);
        Ok(v)
    }

    /// Packs a window of exactly `k` nucleotide letters (either case).
    pub fn encode(&self, window: &[u8]) -> (r: Result<u64, InvalidBase>)
        requires
            self.wf(),
            window@.len() == self.len(),
        ensures
            r is Ok <==> all_bases(window@),
            r matches Ok(x) ==> self.valid(x as nat) && x == value_of(codes_of(window@)),
    {
        assert(window@.subrange(0, self.len() as int) =~= window@);
        self.encode_at(window, 0)
    }

    /// The reverse complement of the packed k-mer `x`.
    pub fn reverse_complement(&self, x: u64) -> (r: u64)
        requires
            self.wf(),
            self.valid(x as nat),
        ensures
            r == self.reverse_complement_spec(x as nat),
            self.valid(r as nat),
    {
        let ghost s = self.kmer(x as nat);
        let ghost k = self.len();
        proof {
            lemma_value_of_bases(x as nat, k);
            assert(s.subrange(0, k as int) =~= s);
            assert(s.subrange(k as int, k as int) =~= Seq::<nat>::empty());
            assert(revcomp(Seq::<nat>::empty()) =~= Seq::<nat>::empty());
        }
        let mut rest: u64 = x;
        let mut acc: u64 = 0;
        let mut i: usize = 0;
        while i < self.k
            invariant
                self.wf(),
                k == self.len(),
                s == self.kmer(x as nat),
                s.len() == k,
                all_codes(s),
                i <= k,
                rest == value_of(s.subrange(0, k - i)),
                acc == value_of(revcomp(s.subrange(k - i, k as int))),
                acc < pow4(i as nat),
            decreases self.k - i,
        {
            let ghost p = s.subrange(0, k - i);
            let ghost t = s.subrange(k - i, k as int);
            let ghost t2 = s.subrange(k - i - 1, k as int);
            let d = rest % 4;
            proof {
                assert(p.drop_last() =~= s.subrange(0, k - i - 1));
                assert(p.last() == s[k - i - 1]);
                assert(s[k - i - 1] < 4);
                lemma_fundamental_div_mod_converse(
                    rest as int,
                    4,
                    value_of(p.drop_last()) as int,
                    p.last() as int,
                );
                assert(d == s[k - i - 1]);
                assert(revcomp(t2) =~= revcomp(t).push((3 - d) as nat));
                assert(revcomp(t).push((3 - d) as nat).drop_last() =~= revcomp(t));
                lemma_pow4_monotone((i + 1) as nat, MAX_KMER_LENGTH as nat);
                lemma_pow4_max();
            }
            acc = acc * 4 + (3 - d);
            rest = rest / 4;
            i = i + 1;
        }
        proof {
            assert(s.subrange(0, 0) =~= Seq::<nat>::empty());
            assert(s.subrange(0, k as int) =~= s);
        }
        acc
    }

    /// The canonical form of `x`: the smaller of it and its reverse complement.
    pub fn canonical(&self, x: u64) -> (r: u64)
        requires
            self.wf(),
            self.valid(x as nat),
        ensures
            r == self.canonical_spec(x as nat),
            self.valid(r as nat),
    {
        let rc = self.reverse_complement(x);
        if x <= rc {
            x
        } else {
            rc
        }
    }

    /// `x` with its middle base set to the code `b`; not canonicalized.
    pub fn with_middle_base(&self, x: u64, b: u64) -> (r: u64)
        requires
            self.wf(),
            self.valid(x as nat),
            b < 4,
        ensures
            r == self.with_middle_base_spec(x as nat, b as nat),
            self.valid(r as nat),
    {
        let ghost k = self.len();
        let ghost m = middle(k);
        let ghost s = self.kmer(x as nat);
        let w = self.middle_weight;
        proof {
            lemma_value_of_bases(x as nat, k);
            lemma_base_digit(x as nat, k, m);
            assert((k - 1 - m) as nat == m);
            lemma_value_update(s, m as int, 0);
            lemma_value_update(s, m as int, b as nat);
            assert(all_codes(s.update(m as int, b as nat)));
            lemma_value_bound(s.update(m as int, b as nat));
            lemma_pow4_positive(m);
            assert(w == pow4(m));
            assert(s.len() == k);
            assert((s.len() - 1 - m) as nat == m);
        }
        let d = (x / w) % 4;
        assert(d == s[m as int]);
        assert(d * w <= x);
        proof {
            lemma_pow4_monotone(k, MAX_KMER_LENGTH as nat);
            lemma_pow4_monotone(m, MAX_KMER_LENGTH as nat);
            lemma_pow4_max();
        }
        x - d * w + b * w
    }

    /// The family key of `x`: its canonical form with the middle base cleared.
    pub fn family_key(&self, x: u64) -> (r: u64)
        requires
            self.wf(),
            self.valid(x as nat),
        ensures
            r == self.family_key_spec(x as nat),
            self.valid(r as nat),
    {
        let c = self.canonical(x);
        self.with_middle_base(c, 0)
    }

    /// The upper-case text of the packed k-mer `x`.
    pub fn to_string(&self, x: u64) -> (r: String)
        requires
            self.wf(),
            self.valid(x as nat),
        ensures
            r@ == letters_of(self.kmer(x as nat)),
    {
        let ghost k = self.len();
        let ghost s = self.kmer(x as nat);
        proof {
            lemma_value_of_bases(x as nat, k);
            reveal_strlit("A");
            reveal_strlit("C");
            reveal_strlit("G");
            reveal_strlit("T");
        }
        let mut out = String::new();
        let mut w: u64 = 1;
        let mut j: usize = 1;
        while j < self.k
            invariant
                self.wf(),
                k == self.len(),
                1 <= j <= k,
                w == pow4((j - 1) as nat),
            decreases self.k - j,
        {
            proof {
                lemma_pow4_monotone(j as nat, MAX_KMER_LENGTH as nat);
                lemma_pow4_max();
            }
            w = w * 4;
            j = j + 1;
        }
        let mut i: usize = 0;
        while i < self.k
            invariant
                self.wf(),
                k == self.len(),
                s == self.kmer(x as nat),
                s.len() == k,
                i <= k,
                i < k ==> w == pow4((k - 1 - i) as nat),
                out@ == letters_of(s.subrange(0, i as int)),
                "A"@ == seq!['A'],
                "C"@ == seq!['C'],
                "G"@ == seq!['G'],
                "T"@ == seq!['T'],
            decreases self.k - i,
        {
            proof {
                lemma_base_digit(x as nat, k, i as nat);
                lemma_pow4_positive((k - 1 - i) as nat);
            }
            let d = (x / w) % 4;
            if d == 0 {
                out.append("A");
            } else if d == 1 {
                out.append("C");
            } else if d == 2 {
                out.append("G");
            } else {
                out.append("T");
            }
            proof {
                assert(letters_of(s.subrange(0, i + 1)) =~= letters_of(s.subrange(0, i as int)).push(
                    letter_of(s[i as int]),
                ));
            }
            w = w / 4;
            i = i + 1;
        }
        proof {
            lemma_value_of_bases(x as nat, k);
            assert(s.subrange(0, k as int) =~= s);
        }
        out
    }
}

/// Why a k-mer length is refused.
#[derive(Clone, Copy, Debug, PartialEq, Eq)]
pub enum InvalidLength {
    /// Even lengths have no middle base.
    Even,
    /// Longer k-mers do not fit in 64 bits.
    TooLong,
}


/// The canonical strand of a sequence of base codes.
pub open spec fn canon_seq(s: Seq<nat>) -> Seq<nat> {
    if value_of(s) <= value_of(revcomp(s)) {
        s
    } else {
        revcomp(s)
    }
}

/// Whether the bases left of the middle are the reverse complement of those
/// right of it.
pub open spec fn palindromic_flanks(s: Seq<nat>) -> bool {
    forall|j: int| 0 <= j < middle(s.len()) ==> #[trigger] s[j] + s[s.len() - 1 - j] == 3
}

proof fn first_flank_mismatch(s: Seq<nat>, from: int) -> (j: int)
    requires
        0 <= from <= middle(s.len()),
        forall|i: int| 0 <= i < from ==> #[trigger] s[i] + s[s.len() - 1 - i] == 3,
        exists|i: int| from <= i < middle(s.len()) && #[trigger] s[i] + s[s.len() - 1 - i] != 3,
    ensures
        from <= j < middle(s.len()),
        s[j] + s[s.len() - 1 - j] != 3,
        forall|i: int| 0 <= i < j ==> #[trigger] s[i] + s[s.len() - 1 - i] == 3,
    decreases middle(s.len()) - from,
{
    if s[from] + s[s.len() - 1 - from] != 3 {
        from
    } else {
        first_flank_mismatch(s, from + 1)
    }
}

/// All four middle-base variants of a k-mer have the same canonical strand
/// once their middle base is cleared.
pub proof fn lemma_canon_masked(s: Seq<nat>, b1: nat, b2: nat)
    requires
        all_codes(s),
        s.len() % 2 == 1,
        b1 < 4,
        b2 < 4,
    ensures
        canon_seq(s.update(middle(s.len()) as int, b1)).update(middle(s.len()) as int, 0)
            == canon_seq(s.update(middle(s.len()) as int, b2)).update(middle(s.len()) as int, 0),
{
    let n = s.len() as int;
    let m = middle(s.len()) as int;
    let s1 = s.update(m, b1);
    let s2 = s.update(m, b2);
    let r = revcomp(s);
    assert(n - 1 - m == m);
    lemma_revcomp_update(s, m, b1);
    lemma_revcomp_update(s, m, b2);
    lemma_revcomp(s);
    assert(all_codes(s1));
    assert(all_codes(s2));
    lemma_revcomp(s1);
    lemma_revcomp(s2);
    if palindromic_flanks(s) {
        assert forall|c: nat| #![auto] r.update(m, c) =~= s.update(m, c) by {
            assert forall|i: int| 0 <= i < n && i != m implies r[i] == s[i] by {
                if i < m {
                    assert(s[i] + s[n - 1 - i] == 3);
                } else {
                    let i2 = n - 1 - i;
                    assert(s[i2] + s[n - 1 - i2] == 3);
                }
            }
        }
        assert(s1.update(m, 0) =~= s.update(m, 0));
        assert(s2.update(m, 0) =~= s.update(m, 0));
        assert(r.update(m, (3 - b1) as nat).update(m, 0) =~= s.update(m, 0));
        assert(r.update(m, (3 - b2) as nat).update(m, 0) =~= s.update(m, 0));
    } else {
        let j = first_flank_mismatch(s, 0);
        assert forall|c: nat| c < 4 implies {
            &&& forall|i: int| 0 <= i < j ==> #[trigger] s.update(m, c)[i] == revcomp(
                s.update(m, c),
            )[i]
            &&& s.update(m, c)[j] == s[j]
            &&& revcomp(s.update(m, c))[j] == 3 - s[n - 1 - j]
        } by {
            assert forall|i: int| 0 <= i < j implies #[trigger] s.update(m, c)[i] == revcomp(
                s.update(m, c),
            )[i] by {
                assert(s[i] + s[n - 1 - i] == 3);
            }
        }
        if s[j] + s[n - 1 - j] < 3 {
            lemma_value_lex(s1, revcomp(s1), j);
            lemma_value_lex(s2, revcomp(s2), j);
            assert(s1.update(m, 0) =~= s2.update(m, 0));
        } else {
            lemma_value_lex(revcomp(s1), s1, j);
            lemma_value_lex(revcomp(s2), s2, j);
            assert(r.update(m, (3 - b1) as nat).update(m, 0) =~= r.update(m, (3 - b2) as nat).update(
                m,
                0,
            ));
        }
    }
}

impl KmerCodec {
    /// The bases of the canonical form are the canonical strand of the bases.
    pub proof fn lemma_canonical_bases(&self, x: nat)
        requires
            self.wf(),
            self.valid(x),
        ensures
            self.valid(self.canonical_spec(x)),
            self.kmer(self.canonical_spec(x)) == canon_seq(self.kmer(x)),
            self.family_key_spec(x) == value_of(
                canon_seq(self.kmer(x)).update(middle(self.len()) as int, 0),
            ),
    {
        let s = self.kmer(x);
        lemma_value_of_bases(x, self.len());
        lemma_revcomp(s);
        lemma_value_bound(revcomp(s));
        lemma_bases_of_value(revcomp(s));
        lemma_bases_of_value(s);
    }

    /// Canonical form is idempotent and the same for a k-mer and its reverse
    /// complement.
    pub proof fn lemma_canonical_idempotent_and_symmetric(&self, x: nat)
        requires
            self.wf(),
            self.valid(x),
        ensures
            self.canonical_spec(self.canonical_spec(x)) == self.canonical_spec(x),
            self.valid(self.reverse_complement_spec(x)),
            self.canonical_spec(self.reverse_complement_spec(x)) == self.canonical_spec(x),
    {
        let s = self.kmer(x);
        let r = self.reverse_complement_spec(x);
        lemma_value_of_bases(x, self.len());
        lemma_revcomp(s);
        lemma_value_bound(revcomp(s));
        lemma_bases_of_value(revcomp(s));
        assert(self.reverse_complement_spec(r) == x);
    }

    /// Among the four middle-base variants of a k-mer's family key, each put
    /// on its canonical strand, is the k-mer's own canonical form.
    pub proof fn lemma_family_contains_kmer(&self, x: nat)
        requires
            self.wf(),
            self.valid(x),
        ensures
            exists|b: nat|
                b < 4 && #[trigger] self.canonical_spec(
                    self.with_middle_base_spec(self.family_key_spec(x), b),
                ) == self.canonical_spec(x),
    {
        let k = self.len();
        let m = middle(k) as int;
        let c = self.canonical_spec(x);
        self.lemma_canonical_bases(x);
        self.lemma_canonical_idempotent_and_symmetric(x);
        let cs = self.kmer(c);
        lemma_value_of_bases(c, k);
        let b = cs[m];
        assert(all_codes(cs.update(m, 0)));
        lemma_bases_of_value(cs.update(m, 0));
        assert(cs.update(m, 0).update(m, b) =~= cs);
        assert(self.with_middle_base_spec(self.family_key_spec(x), b) == c);
    }

    /// Every middle-base variant of a k-mer has the k-mer's family key.
    pub proof fn lemma_family_key_of_variant(&self, x: nat, b: nat)
        requires
            self.wf(),
            self.valid(x),
            b < 4,
        ensures
            self.valid(self.with_middle_base_spec(x, b)),
            self.family_key_spec(self.with_middle_base_spec(x, b)) == self.family_key_spec(x),
    {
        let k = self.len();
        let m = middle(k) as int;
        let s = self.kmer(x);
        lemma_value_of_bases(x, k);
        let sb = s.update(m, b);
        assert(all_codes(sb));
        lemma_value_bound(sb);
        lemma_bases_of_value(sb);
        let y = self.with_middle_base_spec(x, b);
        self.lemma_canonical_bases(y);
        self.lemma_canonical_bases(x);
        lemma_canon_masked(s, b, s[m]);
        assert(s.update(m, s[m]) =~= s);
    }
}

} // verus!
