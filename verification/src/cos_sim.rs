use vstd::prelude::*;

verus! {

// ---------------------------------------------------------------------------
// The 70-slot character alphabet
// ---------------------------------------------------------------------------

/// ASCII upper-casing of one byte.
pub open spec fn to_upper(b: u8) -> u8 {
    if 97 <= b && b <= 122 {
        (b - 32) as u8
    } else {
        b
    }
}

/// The slot a (case-folded) byte is counted under: tab and newline first,
/// then the printable range from space through backquote, then the four
/// bytes from brace through tilde; -1 marks a byte outside the alphabet.
pub open spec fn slot_of(b: u8) -> int {
    if 9 <= b && b <= 10 {
        b - 9
    } else if 32 <= b && b <= 96 {
        b - 30
    } else if 123 <= b && b <= 126 {
        b - 57
    } else {
        -1
    }
}

pub const SLOT_COUNT: usize = 70;

/// A text byte is valid when its upper-cased form falls in the alphabet.
pub open spec fn valid_text_byte(b: u8) -> bool {
    slot_of(to_upper(b)) >= 0
}

pub open spec fn valid_text(s: Seq<u8>) -> bool {
    forall|i: int| 0 <= i < s.len() ==> valid_text_byte(s[i])
}

pub open spec fn zero_counts() -> Seq<int> {
    Seq::new(SLOT_COUNT as nat, |_k: int| 0)
}

/// Per-slot occurrence counts of a text, after case folding.
pub open spec fn counts_of_text(s: Seq<u8>) -> Seq<int>
    decreases s.len(),
{
    if s.len() == 0 {
        zero_counts()
    } else {
        let prev = counts_of_text(s.drop_last());
        let k = slot_of(to_upper(s.last()));
        if 0 <= k {
            prev.update(k, prev[k] + 1)
        } else {
            prev
        }
    }
}

/// Per-slot counts aggregated from pre-counted (byte, count) pairs; the
/// bytes are taken as they stand, with no case folding.
pub open spec fn counts_from_pairs(ps: Seq<(u8, u64)>) -> Seq<int>
    decreases ps.len(),
{
    if ps.len() == 0 {
        zero_counts()
    } else {
        let prev = counts_from_pairs(ps.drop_last());
        let k = slot_of(ps.last().0);
        if 0 <= k {
            prev.update(k, prev[k] + ps.last().1)
        } else {
            prev
        }
    }
}

pub open spec fn pairs_total(ps: Seq<(u8, u64)>) -> int
    decreases ps.len(),
{
    if ps.len() == 0 {
        0
    } else {
        pairs_total(ps.drop_last()) + ps.last().1
    }
}

// ---------------------------------------------------------------------------
// Sums and dot products over count vectors
// ---------------------------------------------------------------------------

pub open spec fn sum_ints(s: Seq<int>) -> int
    decreases s.len(),
{
    if s.len() == 0 {
        0
    } else {
        sum_ints(s.drop_last()) + s.last()
    }
}

pub open spec fn dot_ints(a: Seq<int>, b: Seq<int>) -> int
    recommends
        a.len() == b.len(),
    decreases a.len(),
{
    if a.len() == 0 {
        0
    } else {
        dot_ints(a.drop_last(), b.drop_last()) + a.last() * b.last()
    }
}

pub open spec fn nonneg(s: Seq<int>) -> bool {
    forall|i: int| 0 <= i < s.len() ==> s[i] >= 0
}

pub open spec fn as_ints(s: Seq<u64>) -> Seq<int> {
    s.map_values(|x: u64| x as int)
}

pub proof fn lemma_sum_nonneg(s: Seq<int>)
    requires
        nonneg(s),
    ensures
        sum_ints(s) >= 0,
    decreases s.len(),
{
    if s.len() > 0 {
        lemma_sum_nonneg(s.drop_last());
    }
}

pub proof fn lemma_element_le_sum(s: Seq<int>, k: int)
    requires
        nonneg(s),
        0 <= k < s.len(),
    ensures
        s[k] <= sum_ints(s),
    decreases s.len(),
{
    if k == s.len() - 1 {
        lemma_sum_nonneg(s.drop_last());
    } else {
        lemma_element_le_sum(s.drop_last(), k);
    }
}

pub proof fn lemma_sum_update(s: Seq<int>, k: int, v: int)
    requires
        0 <= k < s.len(),
    ensures
        sum_ints(s.update(k, v)) == sum_ints(s) - s[k] + v,
    decreases s.len(),
{
    if k == s.len() - 1 {
        assert(s.update(k, v).drop_last() =~= s.drop_last());
    } else {
        assert(s.update(k, v).drop_last() =~= s.drop_last().update(k, v));
        lemma_sum_update(s.drop_last(), k, v);
    }
}

pub proof fn lemma_sum_take_le(s: Seq<int>, i: int)
    requires
        nonneg(s),
        0 <= i <= s.len(),
    ensures
        sum_ints(s.take(i)) <= sum_ints(s),
    decreases s.len(),
{
    if i == s.len() {
        assert(s.take(i) =~= s);
    } else {
        assert(s.drop_last().take(i) =~= s.take(i));
        lemma_sum_take_le(s.drop_last(), i);
    }
}

pub proof fn lemma_dot_nonneg(a: Seq<int>, b: Seq<int>)
    requires
        nonneg(a),
        nonneg(b),
        a.len() == b.len(),
    ensures
        dot_ints(a, b) >= 0,
    decreases a.len(),
{
    if a.len() > 0 {
        lemma_dot_nonneg(a.drop_last(), b.drop_last());
        assert(a.last() * b.last() >= 0) by (nonlinear_arith)
            requires
                a.last() >= 0,
                b.last() >= 0,
        ;
    }
}

pub proof fn lemma_dot_le_sum_product(a: Seq<int>, b: Seq<int>)
    requires
        nonneg(a),
        nonneg(b),
        a.len() == b.len(),
    ensures
        dot_ints(a, b) <= sum_ints(a) * sum_ints(b),
    decreases a.len(),
{
    if a.len() == 0 {
    } else {
        let sa = sum_ints(a.drop_last());
        let sb = sum_ints(b.drop_last());
        let al = a.last();
        let bl = b.last();
        lemma_dot_le_sum_product(a.drop_last(), b.drop_last());
        lemma_sum_nonneg(a.drop_last());
        lemma_sum_nonneg(b.drop_last());
        assert(sa * sb + al * bl <= (sa + al) * (sb + bl)) by (nonlinear_arith)
            requires
                sa >= 0,
                sb >= 0,
                al >= 0,
                bl >= 0,
        ;
    }
}

/// The position of the first byte whose upper-cased form falls outside the
/// alphabet (meaningful only when one exists).
pub open spec fn first_invalid_index(s: Seq<u8>) -> int
    decreases s.len(),
{
    if s.len() == 0 {
        0
    } else if !valid_text_byte(s[0]) {
        0
    } else {
        1 + first_invalid_index(s.skip(1))
    }
}

pub proof fn lemma_first_invalid(s: Seq<u8>, i: int)
    requires
        0 <= i < s.len(),
        !valid_text_byte(s[i]),
        forall|j: int| 0 <= j < i ==> valid_text_byte(s[j]),
    ensures
        first_invalid_index(s) == i,
    decreases i,
{
    if i > 0 {
        assert(forall|j: int| 0 <= j < i - 1 ==> s.skip(1)[j] == s[j + 1]);
        lemma_first_invalid(s.skip(1), i - 1);
    }
}

/// The position of the first pair whose byte falls outside the alphabet
/// (meaningful only when one exists).
pub open spec fn first_invalid_pair_index(ps: Seq<(u8, u64)>) -> int
    decreases ps.len(),
{
    if ps.len() == 0 {
        0
    } else if slot_of(ps[0].0) < 0 {
        0
    } else {
        1 + first_invalid_pair_index(ps.skip(1))
    }
}

pub proof fn lemma_first_invalid_pair(ps: Seq<(u8, u64)>, i: int)
    requires
        0 <= i < ps.len(),
        slot_of(ps[i].0) < 0,
        forall|j: int| 0 <= j < i ==> slot_of(ps[j].0) >= 0,
    ensures
        first_invalid_pair_index(ps) == i,
    decreases i,
{
    if i > 0 {
        assert(forall|j: int| 0 <= j < i - 1 ==> ps.skip(1)[j] == ps[j + 1]);
        lemma_first_invalid_pair(ps.skip(1), i - 1);
    }
}

pub proof fn lemma_pairs_total_nonneg(ps: Seq<(u8, u64)>)
    ensures
        pairs_total(ps) >= 0,
    decreases ps.len(),
{
    if ps.len() > 0 {
        lemma_pairs_total_nonneg(ps.drop_last());
    }
}

pub proof fn lemma_pairs_total_take_le(ps: Seq<(u8, u64)>, i: int)
    requires
        0 <= i <= ps.len(),
    ensures
        pairs_total(ps.take(i)) <= pairs_total(ps),
    decreases ps.len(),
{
    if i == ps.len() {
        assert(ps.take(i) =~= ps);
    } else {
        assert(ps.drop_last().take(i) =~= ps.take(i));
        lemma_pairs_total_take_le(ps.drop_last(), i);
    }
}

// ---------------------------------------------------------------------------
// The frequency vector itself
// ---------------------------------------------------------------------------

/// A character-class frequency profile of a text: one occurrence count per
/// alphabet slot, the total number of bytes counted, and the cached dot
/// product of the count vector with itself. The frequency vector proper is
/// the counts divided by the total; since every comparison this library
/// makes is invariant under that scaling, the integer counts are kept and
/// all arithmetic on them is exact.
pub struct CharFreq {
    counts: Vec<u64>,
    total: u64,
    magnitude: u64,
}

#[derive(Debug)]
pub enum CharFreqError {
    InvalidChar(u8),
}

impl View for CharFreq {
    type V = Seq<int>;

    closed spec fn view(&self) -> Seq<int> {
        as_ints(self.counts@)
    }
}

impl CharFreq {
    /// The counts fill all slots, the total is their sum and small enough
    /// that products of two totals fit in a machine word, and the cached
    /// magnitude is the dot product of the counts with themselves.
    pub closed spec fn wf(&self) -> bool {
        &&& self.counts@.len() == SLOT_COUNT
        &&& self.total as int == sum_ints(self@)
        &&& self.total <= u32::MAX
        &&& self.magnitude as int == dot_ints(self@, self@)
    }

    pub proof fn lemma_wf_facts(&self)
        requires
            self.wf(),
        ensures
            self@.len() == SLOT_COUNT,
            nonneg(self@),
            0 <= sum_ints(self@) <= u32::MAX,
    {
    }

    /// The number of bytes (or reference counts) this profile was built from.
    pub fn total(&self) -> (r: u64)
        requires
            self.wf(),
        ensures
            r == sum_ints(self@),
    {
        self.total
    }

    /// The dot product of the count vector with itself.
    pub fn magnitude(&self) -> (r: u64)
        requires
            self.wf(),
        ensures
            r == dot_ints(self@, self@),
    {
        self.magnitude
    }

    /// The dot product of two count vectors.
    pub fn dot(&self, other: &CharFreq) -> (r: u64)
        requires
            self.wf(),
            other.wf(),
        ensures
            r == dot_ints(self@, other@),
    {
        dot_counts_exec(&self.counts, &other.counts)
    }
}

/// Computes a dot product of two count vectors whose sums are small enough
/// that the result cannot overflow.
fn dot_counts_exec(a: &Vec<u64>, b: &Vec<u64>) -> (r: u64)
    requires
        a@.len() == b@.len(),
        sum_ints(as_ints(a@)) <= u32::MAX,
        sum_ints(as_ints(b@)) <= u32::MAX,
    ensures
        r == dot_ints(as_ints(a@), as_ints(b@)),
{
    let ghost sa = as_ints(a@);
    let ghost sb = as_ints(b@);
    let mut acc: u64 = 0;
    let mut i: usize = 0;
    while i < a.len()
        invariant
            a@.len() == b@.len(),
            i <= a@.len(),
            sa == as_ints(a@),
            sb == as_ints(b@),
            sum_ints(sa) <= u32::MAX,
            sum_ints(sb) <= u32::MAX,
            acc == dot_ints(sa.take(i as int), sb.take(i as int)),
        decreases a@.len() - i,
    {
        proof {
            let ii = i as int;
            assert(sa.take(ii + 1).drop_last() =~= sa.take(ii));
            assert(sb.take(ii + 1).drop_last() =~= sb.take(ii));
            lemma_dot_le_sum_product(sa.take(ii + 1), sb.take(ii + 1));
            lemma_sum_take_le(sa, ii + 1);
            lemma_sum_take_le(sb, ii + 1);
            lemma_sum_nonneg(sa.take(ii + 1));
            lemma_sum_nonneg(sb.take(ii + 1));
            assert(sum_ints(sa.take(ii + 1)) * sum_ints(sb.take(ii + 1)) <= sum_ints(sa) * sum_ints(
                sb)) by (nonlinear_arith)
                requires
                    0 <= sum_ints(sa.take(ii + 1)) <= sum_ints(sa),
                    0 <= sum_ints(sb.take(ii + 1)) <= sum_ints(sb),
            ;
            assert(sum_ints(sa) * sum_ints(sb) <= 0xffff_ffffu64 * 0xffff_ffffu64) by (
            nonlinear_arith)
                requires
                    0 <= sum_ints(sa) <= u32::MAX,
                    0 <= sum_ints(sb) <= u32::MAX,
            ;
        }
        acc = acc + a[i] * b[i];
        i = i + 1;
    }
    proof {
        assert(sa.take(i as int) =~= sa);
        assert(sb.take(i as int) =~= sb);
    }
    acc
}

// ---------------------------------------------------------------------------
// Similarity comparison
// ---------------------------------------------------------------------------

/// Whether profile `a` scores at least as similar to `reference` as profile
/// `b` does. The similarity of a profile `x` to `reference` is the cosine-style
/// ratio `dot_f(x, reference) / (mag_f(x) * mag_f(reference))` over the
/// frequency vectors (counts divided by totals), where `mag_f` is a vector's
/// dot product with itself. Substituting counts for frequencies gives
/// `dot(x, reference) * total(x) * total(reference) / (mag(x) * mag(reference))`;
/// comparing two profiles against the same reference, the reference's factors
/// are common and positive, so the comparison reduces to the cross-multiplied
/// integer inequality below, which is exact. (When a profile is empty, both
/// sides are zero and the two profiles compare as equal.)
pub open spec fn sim_ge(a: Seq<int>, b: Seq<int>, reference: Seq<int>) -> bool {
    dot_ints(a, reference) * sum_ints(a) * dot_ints(b, b) >= dot_ints(b, reference) * sum_ints(b)
        * dot_ints(a, a)
}

/// A profile with a positive total has a positive magnitude.
pub proof fn lemma_mag_pos(s: Seq<int>)
    requires
        nonneg(s),
        sum_ints(s) > 0,
    ensures
        dot_ints(s, s) > 0,
    decreases s.len(),
{
    if s.len() > 0 {
        let l = s.last();
        if l > 0 {
            lemma_dot_nonneg(s.drop_last(), s.drop_last());
            assert(l * l > 0) by (nonlinear_arith)
                requires
                    l > 0,
            ;
        } else {
            lemma_mag_pos(s.drop_last());
            assert(l * l >= 0) by (nonlinear_arith);
        }
    }
}

/// The similarity ordering is total: of any two profiles, one scores at
/// least as close to the reference as the other.
pub proof fn lemma_sim_ge_total(a: Seq<int>, b: Seq<int>, reference: Seq<int>)
    ensures
        sim_ge(a, b, reference) || sim_ge(b, a, reference),
{
}

proof fn lemma_frac_ge_trans(fa: int, ga: int, fb: int, gb: int, fc: int, gc: int)
    by (nonlinear_arith)
    requires
        fa >= 0,
        fb >= 0,
        fc >= 0,
        ga > 0,
        gb > 0,
        gc > 0,
        fa * gb >= fb * ga,
        fb * gc >= fc * gb,
    ensures
        fa * gc >= fc * ga,
{
}

/// The similarity ordering is transitive over profiles with positive totals.
pub proof fn lemma_sim_ge_trans(a: Seq<int>, b: Seq<int>, c: Seq<int>, reference: Seq<int>)
    requires
        nonneg(a),
        nonneg(b),
        nonneg(c),
        nonneg(reference),
        a.len() == reference.len(),
        b.len() == reference.len(),
        c.len() == reference.len(),
        sum_ints(a) > 0,
        sum_ints(b) > 0,
        sum_ints(c) > 0,
        sim_ge(a, b, reference),
        sim_ge(b, c, reference),
    ensures
        sim_ge(a, c, reference),
{
    lemma_dot_nonneg(a, reference);
    lemma_dot_nonneg(b, reference);
    lemma_dot_nonneg(c, reference);
    lemma_sum_nonneg(a);
    lemma_sum_nonneg(b);
    lemma_sum_nonneg(c);
    lemma_mag_pos(a);
    lemma_mag_pos(b);
    lemma_mag_pos(c);
    let fa = dot_ints(a, reference) * sum_ints(a);
    let fb = dot_ints(b, reference) * sum_ints(b);
    let fc = dot_ints(c, reference) * sum_ints(c);
    assert(fa >= 0 && fb >= 0 && fc >= 0) by (nonlinear_arith)
        requires
            dot_ints(a, reference) >= 0,
            sum_ints(a) >= 0,
            dot_ints(b, reference) >= 0,
            sum_ints(b) >= 0,
            dot_ints(c, reference) >= 0,
            sum_ints(c) >= 0,
            fa == dot_ints(a, reference) * sum_ints(a),
            fb == dot_ints(b, reference) * sum_ints(b),
            fc == dot_ints(c, reference) * sum_ints(c),
    ;
    lemma_frac_ge_trans(fa, dot_ints(a, a), fb, dot_ints(b, b), fc, dot_ints(c, c));
}

/// Splits the product of a wide value and a small factor into an upper and a
/// lower half, so that a product too wide for one machine word can still be
/// compared exactly.
fn mul_split(x: u128, c: u64) -> (r: (u128, u128))
    requires
        c <= u32::MAX,
    ensures
        r.1 < 0x1_0000_0000_0000_0000,
        r.0 * 0x1_0000_0000_0000_0000 + r.1 == x * c,
{
    let xh = x / 0x1_0000_0000_0000_0000u128;
    let xl = x % 0x1_0000_0000_0000_0000u128;
    proof {
        assert(xh < 0x1_0000_0000_0000_0000 && xl < 0x1_0000_0000_0000_0000 && x == xh
            * 0x1_0000_0000_0000_0000 + xl);
        assert(xh * (c as u128) < 0x1_0000_0000_0000_0000_0000_0000) by (nonlinear_arith)
            requires
                0 <= xh < 0x1_0000_0000_0000_0000,
                0 <= c <= u32::MAX,
        ;
        assert(xl * (c as u128) < 0x1_0000_0000_0000_0000_0000_0000) by (nonlinear_arith)
            requires
                0 <= xl < 0x1_0000_0000_0000_0000,
                0 <= c <= u32::MAX,
        ;
    }
    let p1 = xh * (c as u128);
    let p2 = xl * (c as u128);
    let hi = p1 + p2 / 0x1_0000_0000_0000_0000u128;
    let lo = p2 % 0x1_0000_0000_0000_0000u128;
    proof {
        let b: int = 0x1_0000_0000_0000_0000;
        assert(p2 == (p2 as int / b) * b + p2 as int % b);
        assert((xh * b + xl) * c == xh * c * b + xl * c) by (nonlinear_arith);
        assert((p1 + p2 as int / b) * b + p2 as int % b == p1 * b + p2) by (nonlinear_arith)
            requires
                p2 == (p2 as int / b) * b + p2 as int % b,
        ;
    }
    (hi, lo)
}

proof fn lemma_pair_ge(h1: int, l1: int, h2: int, l2: int, base: int)
    by (nonlinear_arith)
    requires
        base > 0,
        0 <= l1 < base,
        0 <= l2 < base,
    ensures
        (h1 * base + l1 >= h2 * base + l2) <==> (h1 > h2 || (h1 == h2 && l1 >= l2)),
{
}

/// Decides, exactly, whether `a` is at least as similar to `reference` as
/// `b` is, under the similarity ordering described at `sim_ge`.
pub fn more_similar(a: &CharFreq, b: &CharFreq, reference: &CharFreq) -> (r: bool)
    requires
        a.wf(),
        b.wf(),
        reference.wf(),
    ensures
        r == sim_ge(a@, b@, reference@),
{
    let da = a.dot(reference);
    let db = b.dot(reference);
    let ma = a.magnitude();
    let mb = b.magnitude();
    let ta = a.total();
    let tb = b.total();
    proof {
        assert((da as int) * (mb as int) <= 0xffff_ffff_ffff_ffff_ffff_ffff_ffff_ffff) by (
        nonlinear_arith)
            requires
                0 <= da <= u64::MAX,
                0 <= mb <= u64::MAX,
        ;
        assert((db as int) * (ma as int) <= 0xffff_ffff_ffff_ffff_ffff_ffff_ffff_ffff) by (
        nonlinear_arith)
            requires
                0 <= db <= u64::MAX,
                0 <= ma <= u64::MAX,
        ;
    }
    let x = (da as u128) * (mb as u128);
    let y = (db as u128) * (ma as u128);
    let (xh, xl) = mul_split(x, ta);
    let (yh, yl) = mul_split(y, tb);
    proof {
        lemma_pair_ge(xh as int, xl as int, yh as int, yl as int, 0x1_0000_0000_0000_0000);
        assert(da * mb * ta == da * ta * mb && db * ma * tb == db * tb * ma) by (nonlinear_arith);
    }
    xh > yh || (xh == yh && xl >= yl)
}

fn upper_byte(b: u8) -> (r: u8)
    ensures
        r == to_upper(b),
{
    if 97 <= b && b <= 122 {
        b - 32
    } else {
        b
    }
}

fn slot_byte(b: u8) -> (r: Option<usize>)
    ensures
        r is Some <==> slot_of(b) >= 0,
        r is Some ==> r->0 == slot_of(b) && r->0 < SLOT_COUNT,
{
    if 9 <= b && b <= 10 {
        Some((b - 9) as usize)
    } else if 32 <= b && b <= 96 {
        Some((b - 30) as usize)
    } else if 123 <= b && b <= 126 {
        Some((b - 57) as usize)
    } else {
        None
    }
}

fn zero_count_vec() -> (r: Vec<u64>)
    ensures
        as_ints(r@) == zero_counts(),
        sum_ints(as_ints(r@)) == 0,
{
    let mut counts: Vec<u64> = Vec::new();
    let mut k: usize = 0;
    while k < SLOT_COUNT
        invariant
            k <= SLOT_COUNT,
            counts@.len() == k,
            forall|j: int| 0 <= j < k ==> counts@[j] == 0u64,
            sum_ints(as_ints(counts@)) == 0,
        decreases SLOT_COUNT - k,
    {
        let ghost prev = as_ints(counts@);
        counts.push(0);
        proof {
            assert(as_ints(counts@).drop_last() =~= prev);
        }
        k = k + 1;
    }
    proof {
        assert(as_ints(counts@) =~= zero_counts());
    }
    counts
}

impl CharFreq {
    /// Builds the frequency profile of a text: each byte is upper-cased and
    /// counted under its alphabet slot; the first byte falling outside the
    /// alphabet is reported (in upper-cased form) as invalid instead.
    pub fn from_str(s: &[u8]) -> (r: Result<CharFreq, CharFreqError>)
        requires
            s@.len() <= u32::MAX,
        ensures
            r is Ok <==> valid_text(s@),
            r is Ok ==> (r->Ok_0).wf() && (r->Ok_0)@ == counts_of_text(s@) && sum_ints((r->Ok_0)@)
                == s@.len(),
            r is Err ==> r->Err_0 == CharFreqError::InvalidChar(
                to_upper(s@[first_invalid_index(s@)]),
            ),
    {
        let mut counts = zero_count_vec();
        let mut i: usize = 0;
        while i < s.len()
            invariant
                s@.len() <= u32::MAX,
                i <= s@.len(),
                counts@.len() == SLOT_COUNT,
                as_ints(counts@) == counts_of_text(s@.take(i as int)),
                valid_text(s@.take(i as int)),
                sum_ints(as_ints(counts@)) == i,
            decreases s@.len() - i,
        {
            let b = upper_byte(s[i]);
            let ghost cur = as_ints(counts@);
            match slot_byte(b) {
                Some(k) => {
                    proof {
                        lemma_element_le_sum(cur, k as int);
                    }
                    let c = counts[k];
                    counts[k] = c + 1;
                    proof {
                        let ii = i as int;
                        assert(as_ints(counts@) =~= cur.update(k as int, cur[k as int] + 1));
                        lemma_sum_update(cur, k as int, cur[k as int] + 1);
                        assert(s@.take(ii + 1).drop_last() =~= s@.take(ii));
                        assert(s@.take(ii + 1).last() == s@[ii]);
                        assert(valid_text(s@.take(ii + 1)));
                    }
                },
                None => {
                    proof {
                        assert forall|j: int| 0 <= j < i implies valid_text_byte(s@[j]) by {
                            assert(s@.take(i as int)[j] == s@[j]);
                        }
                        lemma_first_invalid(s@, i as int);
                    }
                    return Err(CharFreqError::InvalidChar(b));
                },
            }
            i = i + 1;
        }
        proof {
            assert(s@.take(i as int) =~= s@);
        }
        let total = s.len() as u64;
        let magnitude = dot_counts_exec(&counts, &counts);
        Ok(CharFreq { counts, total, magnitude })
    }

    /// Builds a reference frequency profile from pre-aggregated (byte,
    /// count) pairs, e.g. a corpus table parsed elsewhere. The bytes are
    /// binned as they stand, without case folding; the first byte outside
    /// the alphabet is reported as invalid. The counts must be small enough
    /// in sum for exact machine arithmetic on them.
    pub fn from_reference_corpus(pairs: &[(u8, u64)]) -> (r: Result<CharFreq, CharFreqError>)
        requires
            pairs_total(pairs@) <= u32::MAX,
        ensures
            r is Ok <==> (forall|i: int| 0 <= i < pairs@.len() ==> slot_of(pairs@[i].0) >= 0),
            r is Ok ==> (r->Ok_0).wf() && (r->Ok_0)@ == counts_from_pairs(pairs@) && sum_ints(
                (r->Ok_0)@,
            ) == pairs_total(pairs@),
            r is Err ==> r->Err_0 == CharFreqError::InvalidChar(
                pairs@[first_invalid_pair_index(pairs@)].0,
            ),
    {
        let mut counts = zero_count_vec();
        let mut total: u64 = 0;
        let mut i: usize = 0;
        while i < pairs.len()
            invariant
                pairs_total(pairs@) <= u32::MAX,
                i <= pairs@.len(),
                counts@.len() == SLOT_COUNT,
                as_ints(counts@) == counts_from_pairs(pairs@.take(i as int)),
                forall|j: int| 0 <= j < i ==> slot_of(pairs@[j].0) >= 0,
                total == pairs_total(pairs@.take(i as int)),
                total == sum_ints(as_ints(counts@)),
            decreases pairs@.len() - i,
        {
            let (b, cnt) = pairs[i];
            let ghost cur = as_ints(counts@);
            proof {
                let ii = i as int;
                assert(pairs@.take(ii + 1).drop_last() =~= pairs@.take(ii));
                assert(pairs@.take(ii + 1).last() == pairs@[ii]);
                lemma_pairs_total_take_le(pairs@, ii + 1);
                lemma_pairs_total_nonneg(pairs@.take(ii));
            }
            match slot_byte(b) {
                Some(k) => {
                    proof {
                        lemma_element_le_sum(cur, k as int);
                    }
                    let c = counts[k];
                    counts[k] = c + cnt;
                    total = total + cnt;
                    proof {
                        assert(as_ints(counts@) =~= cur.update(k as int, cur[k as int] + cnt));
                        lemma_sum_update(cur, k as int, cur[k as int] + cnt);
                    }
                },
                None => {
                    proof {
                        lemma_first_invalid_pair(pairs@, i as int);
                    }
                    return Err(CharFreqError::InvalidChar(b));
                },
            }
            i = i + 1;
        }
        proof {
            assert(pairs@.take(i as int) =~= pairs@);
        }
        let magnitude = dot_counts_exec(&counts, &counts);
        Ok(CharFreq { counts, total, magnitude })
    }
}

} // verus!
