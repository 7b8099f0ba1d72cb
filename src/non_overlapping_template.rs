//! Non-overlapping template matching over the aperiodic templates of a length.
use vstd::prelude::*;
use crate::BitsData;
use crate::TestError;
use crate::counting::{block, lemma_pow2_mono, pow2, pow2_exec};

verus! {

/// At most this many templates of one length are used.
pub const MAX_NUM_OF_TEMPLATES: usize = 148;

/// Number of sub-blocks that the sequence is split into.
pub const SUB_BLOCKS: usize = 8;

/// The word of `m` bits that spells `v`, most significant bit first.
pub open spec fn word(m: nat, v: nat) -> Seq<bool> {
    Seq::new(m, |j: int| (v / pow2((m - 1 - j) as nat)) % 2 == 1)
}

/// No proper prefix of `w` equals the suffix of the same length: `w` cannot
/// overlap a shifted copy of itself.
pub open spec fn aperiodic(w: Seq<bool>) -> bool {
    forall|k: int| 1 <= k < w.len() ==> #[trigger] w.subrange(0, k) != w.subrange(w.len() - k, w.len() as int)
}

/// The aperiodic words of length `m` among the words of `0..v`, in increasing order.
pub open spec fn aperiodic_words(m: nat, v: nat) -> Seq<Seq<bool>>
    decreases v,
{
    if v == 0 {
        Seq::empty()
    } else {
        let prev = aperiodic_words(m, (v - 1) as nat);
        if aperiodic(word(m, (v - 1) as nat)) {
            prev.push(word(m, (v - 1) as nat))
        } else {
            prev
        }
    }
}

/// The templates of length `m`: its first 148 aperiodic words, in increasing order.
pub open spec fn templates(m: nat) -> Seq<Seq<bool>> {
    let all = aperiodic_words(m, pow2(m));
    if all.len() > 148 { all.take(148) } else { all }
}

proof fn lemma_words_prefix(m: nat, v: nat, w: nat)
    requires
        v <= w,
    ensures
        aperiodic_words(m, v).len() <= aperiodic_words(m, w).len(),
        aperiodic_words(m, v) == aperiodic_words(m, w).take(aperiodic_words(m, v).len() as int),
    decreases w,
{
    if v < w {
        lemma_words_prefix(m, v, (w - 1) as nat);
        let a = aperiodic_words(m, (w - 1) as nat);
        if aperiodic(word(m, (w - 1) as nat)) {
            assert(a.push(word(m, (w - 1) as nat)).take(aperiodic_words(m, v).len() as int)
                == a.take(aperiodic_words(m, v).len() as int));
        }
    } else {
        assert(aperiodic_words(m, w).take(aperiodic_words(m, w).len() as int) == aperiodic_words(m, w));
    }
}

fn word_of(m: usize, v: u64) -> (r: Vec<bool>)
    requires
        1 <= m <= 16,
    ensures
        r@ == word(m as nat, v as nat),
{
    let mut w: Vec<bool> = Vec::new();
    let mut j: usize = 0;
    while j < m
        invariant
            1 <= m <= 16,
            j <= m,
            w@.len() == j,
            forall|i: int| 0 <= i < j ==> #[trigger] w@[i] == word(m as nat, v as nat)[i],
        decreases m - j,
    {
        let p = pow2_exec((m - 1 - j) as u32);
        proof {
            crate::counting::lemma_pow2_pos((m - 1 - j) as nat);
        }
        w.push((v / p) % 2 == 1);
        j = j + 1;
    }
    proof {
        assert(w@ == word(m as nat, v as nat));
    }
    w
}

fn is_aperiodic(w: &Vec<bool>) -> (r: bool)
    ensures
        r == aperiodic(w@),
{
    let m = w.len();
    let mut k: usize = 1;
    while k < m
        invariant
            m == w@.len(),
            1 <= k,
            forall|a: int| 1 <= a < k && a < m ==> #[trigger] w@.subrange(0, a) != w@.subrange(m - a, m as int),
        decreases m - k,
    {
        let mut i: usize = 0;
        let mut same = true;
        while i < k
            invariant
                k < m,
                m == w@.len(),
                i <= k,
                same == forall|x: int| 0 <= x < i ==> #[trigger] w@[x] == w@[m - k + x],
            decreases k - i,
        {
            if w[i] != w[m - k + i] {
                same = false;
            }
            i = i + 1;
        }
        if same {
            assert(w@.subrange(0, k as int) == w@.subrange(m - k, m as int));
            return false;
        } else {
            let ghost x = choose|x: int| 0 <= x < k && #[trigger] w@[x] != w@[m - k + x];
            assert(w@.subrange(0, k as int)[x] != w@.subrange(m - k, m as int)[x]);
        }
        k = k + 1;
    }
    true
}

/// The templates of length `m`, as `templates(m)` gives them.
pub fn template_table(m: usize) -> (r: Vec<Vec<bool>>)
    requires
        2 <= m <= 16,
    ensures
        r@.len() == templates(m as nat).len(),
        forall|i: int| 0 <= i < r@.len() ==> #[trigger] r@[i]@ == templates(m as nat)[i],
        forall|i: int| 0 <= i < r@.len() ==> (#[trigger] r@[i])@.len() == m,
{
    let total = pow2_exec(m as u32);
    proof {
        lemma_pow2_mono(m as nat, 16);
        crate::counting::lemma_pow2_facts();
    }
    let mut table: Vec<Vec<bool>> = Vec::new();
    let mut v: u64 = 0;
    while v < total && table.len() < MAX_NUM_OF_TEMPLATES
        invariant
            2 <= m <= 16,
            total == pow2(m as nat),
            total <= 65536,
            v <= total,
            table@.len() == aperiodic_words(m as nat, v as nat).len(),
            table@.len() <= 148,
            forall|i: int| 0 <= i < table@.len() ==> #[trigger] table@[i]@ == aperiodic_words(m as nat, v as nat)[i],
            forall|i: int| 0 <= i < table@.len() ==> (#[trigger] table@[i])@.len() == m,
        decreases total - v,
    {
        let w = word_of(m, v);
        if is_aperiodic(&w) {
            table.push(w);
        }
        v = v + 1;
    }
    proof {
        lemma_words_prefix(m as nat, v as nat, total as nat);
    }
    table
}

/// Number of templates of length `m`.
pub fn get_template_size(m: usize) -> (r: usize)
    requires
        2 <= m <= 16,
    ensures
        r == templates(m as nat).len(),
{
    template_table(m).len()
}

/// Template `i` of length `m`.
pub fn get_tempalte(i: usize, m: usize) -> (r: Vec<bool>)
    requires
        2 <= m <= 16,
        i < templates(m as nat).len(),
    ensures
        r@ == templates(m as nat)[i as int],
{
    let mut table = template_table(m);
    table.swap_remove(i)
}

/// Matches of `t` in `s` found by a window that starts at position `k`,
/// moves on by one bit after a miss and jumps past the match after a hit.
pub open spec fn scan_matches(s: Seq<bool>, t: Seq<bool>, k: int) -> nat
    decreases s.len() - k,
{
    if k < 0 || t.len() == 0 || k + t.len() > s.len() {
        0
    } else if s.subrange(k, k + t.len()) == t {
        1 + scan_matches(s, t, k + t.len())
    } else {
        scan_matches(s, t, k + 1)
    }
}

/// The tally of the non-overlapping template test.
pub struct TemplateTally {
    /// Length `M` of each of the eight sub-blocks.
    pub block_len: usize,
    /// `counts[i][j]`: matches of template `i` in sub-block `j`.
    pub counts: Vec<Vec<usize>>,
}

/// `t` holds, for each template of length `m`, its matches in each of the
/// eight sub-blocks of `s`.
pub open spec fn is_template_tally(s: Seq<bool>, m: nat, t: TemplateTally) -> bool {
    &&& t.block_len == s.len() / 8
    &&& t.counts@.len() == templates(m).len()
    &&& forall|i: int| 0 <= i < t.counts@.len() ==> (#[trigger] t.counts@[i])@.len() == 8
    &&& forall|i: int, j: int| 0 <= i < t.counts@.len() && 0 <= j < 8 ==>
        #[trigger] t.counts@[i]@[j] == scan_matches(block(s, t.block_len as int, j), templates(m)[i], 0)
}

/// The tally is fixed by the sequence and the template length alone: two
/// tallies of one sequence agree entry for entry, so neither the order in
/// which templates and sub-blocks are visited nor a repeated run changes it.
pub proof fn lemma_template_tally_unique(s: Seq<bool>, m: nat, t1: TemplateTally, t2: TemplateTally)
    requires
        is_template_tally(s, m, t1),
        is_template_tally(s, m, t2),
    ensures
        t1.block_len == t2.block_len,
        t1.counts@.len() == t2.counts@.len(),
        forall|i: int| 0 <= i < t1.counts@.len() ==> (#[trigger] t1.counts@[i])@ == t2.counts@[i]@,
{
    assert forall|i: int| 0 <= i < t1.counts@.len() implies (#[trigger] t1.counts@[i])@ == t2.counts@[i]@ by {
        assert(t1.counts@[i]@ =~= t2.counts@[i]@);
    }
}

fn matches_at(data: &BitsData, start: usize, t: &Vec<bool>) -> (r: bool)
    requires
        start + t@.len() <= data@.len(),
    ensures
        r == (data@.subrange(start as int, start + t@.len()) == t@),
{
    let len = data.len();
    let m = t.len();
    let mut i: usize = 0;
    while i < m
        invariant
            len == data@.len(),
            m == t@.len(),
            start + m <= len,
            i <= m,
            forall|x: int| 0 <= x < i ==> #[trigger] t@[x] == data@[start + x],
        decreases m - i,
    {
        if data.get(start + i) != t[i] {
            assert(data@.subrange(start as int, start + m)[i as int] != t@[i as int]);
            return false;
        }
        i = i + 1;
    }
    assert(data@.subrange(start as int, start + m) == t@);
    true
}

fn count_matches(data: &BitsData, start: usize, len: usize, t: &Vec<bool>) -> (r: usize)
    requires
        t@.len() > 0,
        start + len <= data@.len(),
    ensures
        r == scan_matches(data@.subrange(start as int, start + len), t@, 0),
{
    let ghost blk = data@.subrange(start as int, start + len);
    let n = data.len();
    let m = t.len();
    let mut count: usize = 0;
    let mut k: usize = 0;
    while m <= len && k <= len - m
        invariant
            n == data@.len(),
            m == t@.len(),
            m > 0,
            start + len <= n,
            blk == data@.subrange(start as int, start + len),
            k <= len + m,
            count <= k,
            count + scan_matches(blk, t@, k as int) == scan_matches(blk, t@, 0),
        decreases len + m - k,
    {
        let hit = matches_at(data, start + k, t);
        assert(blk.subrange(k as int, k + m) == data@.subrange(start + k, start + k + m));
        if hit {
            count = count + 1;
            k = k + m;
        } else {
            k = k + 1;
        }
    }
    count
}

/// Splits the sequence into eight sub-blocks of `M = n / 8` bits and counts,
/// for each template of length `m`, its non-overlapping matches in each
/// sub-block. Fails with `InvalidParameter` unless `2 <= m <= 16`, and with
/// `InsufficientData` when a sub-block is shorter than a template.
pub fn non_overlapping_counts(data: &BitsData, m: usize) -> (r: Result<TemplateTally, TestError>)
    ensures
        match r {
            Ok(t) => 2 <= m <= 16 && t.block_len >= m && is_template_tally(data@, m as nat, t),
            Err(e) => {
                &&& !(2 <= m <= 16) ==> e == TestError::InvalidParameter
                &&& 2 <= m <= 16 ==> e == TestError::InsufficientData && data@.len() / 8 < m
            },
        },
{
    if m < 2 || m > 16 {
        return Err(TestError::InvalidParameter);
    }
    let n = data.len();
    let len = n / SUB_BLOCKS;
    if len < m {
        return Err(TestError::InsufficientData);
    }
    let table = template_table(m);
    let mut counts: Vec<Vec<usize>> = Vec::new();
    let mut i: usize = 0;
    while i < table.len()
        invariant
            2 <= m <= 16,
            n == data@.len(),
            len == n / 8,
            len >= m,
            table@.len() == templates(m as nat).len(),
            forall|x: int| 0 <= x < table@.len() ==> #[trigger] table@[x]@ == templates(m as nat)[x],
            forall|x: int| 0 <= x < table@.len() ==> (#[trigger] table@[x])@.len() == m,
            i <= table@.len(),
            counts@.len() == i,
            forall|x: int| 0 <= x < i ==> (#[trigger] counts@[x])@.len() == 8,
            forall|x: int, j: int| 0 <= x < i && 0 <= j < 8 ==>
                #[trigger] counts@[x]@[j] == scan_matches(block(data@, len as int, j), templates(m as nat)[x], 0),
        decreases table@.len() - i,
    {
        let t = &table[i];
        assert(t@ == templates(m as nat)[i as int]);
        let mut row: Vec<usize> = Vec::new();
        let mut j: usize = 0;
        while j < SUB_BLOCKS
            invariant
                2 <= m <= 16,
                n == data@.len(),
                len == n / 8,
                t@.len() == m,
                len >= m,
                j <= 8,
                row@.len() == j,
                forall|y: int| 0 <= y < j ==> #[trigger] row@[y] == scan_matches(block(data@, len as int, y), t@, 0),
            decreases 8 - j,
        {
            proof {
                assert(j * len + len <= n && 0 <= j * len) by (nonlinear_arith)
                    requires len == n / 8, j < 8, len > 0;
            }
            let c = count_matches(data, j * len, len, t);
            row.push(c);
            j = j + 1;
        }
        counts.push(row);
        i = i + 1;
    }
    Ok(TemplateTally { block_len: len, counts })
}

} // verus!
