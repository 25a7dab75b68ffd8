use vstd::prelude::*;

verus! {

/// One checkpoint of an account: the balance held at the checkpoint's block and the
/// share weight of the checkpoint's offset.
pub type Checkpoint = (int, int);

/// The smallest balance among checkpoints `0..=k`: the balance held continuously from
/// the most recent checkpoint back to checkpoint `k`.
pub open spec fn prefix_min(s: Seq<Checkpoint>, k: int) -> int
    decreases k,
{
    if k <= 0 {
        s[0].0
    } else {
        let m = prefix_min(s, k - 1);
        if s[k].0 < m { s[k].0 } else { m }
    }
}

/// The score of an account whose checkpoints, most recent first, are `s`: each
/// checkpoint contributes its share weight times the balance held continuously since it.
pub open spec fn score(s: Seq<Checkpoint>) -> int
    decreases s.len(),
{
    if s.len() == 0 {
        0
    } else {
        score(s.drop_last()) + prefix_min(s, s.len() - 1) * s.last().1
    }
}

/// The running minimum after all of `s`, starting from the largest balance.
pub open spec fn running_min(s: Seq<Checkpoint>) -> int {
    if s.len() == 0 {
        u128::MAX as int
    } else {
        prefix_min(s, s.len() - 1)
    }
}

pub open spec fn nonneg(s: Seq<Checkpoint>) -> bool {
    forall|i: int| #![trigger s[i]] 0 <= i < s.len() ==> 0 <= s[i].0 && 0 <= s[i].1
}

/// The reward of an account of score `score` when `pool` is divided among scores that
/// add up to `total`.
pub open spec fn reward_of(pool: int, score: int, total: int) -> int {
    pool * score / total
}

/// The sum of a sequence of scores.
pub open spec fn sum(s: Seq<u128>) -> int
    decreases s.len(),
{
    if s.len() == 0 {
        0
    } else {
        sum(s.drop_last()) + s.last()
    }
}

/// `prefix_min` reads only the checkpoints up to `k`.
pub proof fn lemma_prefix_min_prefix(s: Seq<Checkpoint>, t: Seq<Checkpoint>, k: int)
    requires
        0 <= k < s.len(),
        k < t.len(),
        forall|i: int| 0 <= i <= k ==> s[i] == t[i],
    ensures
        prefix_min(s, k) == prefix_min(t, k),
    decreases k,
{
    if k > 0 {
        lemma_prefix_min_prefix(s, t, k - 1);
    }
}

/// Adding an older checkpoint lowers the running minimum to the new balance if that
/// is smaller.
pub proof fn lemma_running_min_push(s: Seq<Checkpoint>, c: Checkpoint)
    requires
        forall|i: int| #![trigger s[i]] 0 <= i < s.len() ==> s[i].0 <= u128::MAX,
        c.0 <= u128::MAX,
    ensures
        running_min(s.push(c)) == if c.0 < running_min(s) { c.0 } else { running_min(s) },
        score(s.push(c)) == score(s) + running_min(s.push(c)) * c.1,
{
    let t = s.push(c);
    assert(t.drop_last() =~= s);
    if s.len() > 0 {
        lemma_prefix_min_prefix(s, t, s.len() - 1);
    } else {
        lemma_prefix_min_le(t, 0, 0);
    }
}

/// The running minimum after checkpoint `k` is at most the balance at every checkpoint
/// `j <= k`: a drop at one checkpoint caps what every older checkpoint contributes.
pub proof fn lemma_prefix_min_le(s: Seq<Checkpoint>, j: int, k: int)
    requires
        0 <= j <= k < s.len(),
    ensures
        prefix_min(s, k) <= s[j].0,
    decreases k,
{
    if k > j {
        lemma_prefix_min_le(s, j, k - 1);
    }
}

/// The running minimum after checkpoint `k` is the balance of one of the checkpoints
/// `0..=k`.
pub proof fn lemma_prefix_min_attained(s: Seq<Checkpoint>, k: int) -> (j: int)
    requires
        0 <= k < s.len(),
    ensures
        0 <= j <= k,
        prefix_min(s, k) == s[j].0,
    decreases k,
{
    if k == 0 {
        0
    } else {
        let j0 = lemma_prefix_min_attained(s, k - 1);
        if s[k].0 < prefix_min(s, k - 1) { k } else { j0 }
    }
}

/// The contribution of the oldest checkpoint is its share weight times the smallest
/// balance seen at any checkpoint: if the balance dropped at some checkpoint, every
/// older checkpoint counts at most the lowered balance.
pub proof fn lemma_drop_caps_older(s: Seq<Checkpoint>, c: Checkpoint, j: int)
    requires
        nonneg(s),
        0 <= c.0 <= u128::MAX,
        0 <= c.1,
        0 <= j < s.len(),
        forall|i: int| #![trigger s[i]] 0 <= i < s.len() ==> s[i].0 <= u128::MAX,
    ensures
        score(s.push(c)) <= score(s) + s[j].0 * c.1,
{
    lemma_running_min_push(s, c);
    lemma_prefix_min_le(s, j, s.len() - 1);
    let m = running_min(s.push(c));
    assert(m <= s[j].0);
    assert(m * c.1 <= s[j].0 * c.1) by (nonlinear_arith)
        requires
            m <= s[j].0,
            0 <= c.1,
    ;
}

pub proof fn lemma_prefix_min_nonneg(s: Seq<Checkpoint>, k: int)
    requires
        nonneg(s),
        0 <= k < s.len(),
    ensures
        0 <= prefix_min(s, k),
{
    let j = lemma_prefix_min_attained(s, k);
}

/// Scores are never negative.
pub proof fn lemma_score_nonneg(s: Seq<Checkpoint>)
    requires
        nonneg(s),
    ensures
        0 <= score(s),
    decreases s.len(),
{
    if s.len() > 0 {
        let t = s.drop_last();
        assert(nonneg(t));
        lemma_score_nonneg(t);
        lemma_prefix_min_nonneg(s, s.len() - 1);
        let m = prefix_min(s, s.len() - 1);
        let w = s.last().1;
        assert(0 <= m * w) by (nonlinear_arith)
            requires
                0 <= m,
                0 <= w,
        ;
    }
}

/// Adding an older checkpoint never lowers a score: balance held for longer counts at
/// least as much as balance held only recently.
pub proof fn lemma_older_checkpoint_never_lowers(s: Seq<Checkpoint>, c: Checkpoint)
    requires
        nonneg(s),
        0 <= c.0,
        0 <= c.1,
    ensures
        score(s) <= score(s.push(c)),
{
    let t = s.push(c);
    assert(t.drop_last() =~= s);
    assert(nonneg(t));
    lemma_prefix_min_nonneg(t, t.len() - 1);
    let m = prefix_min(t, t.len() - 1);
    assert(0 <= m * c.1) by (nonlinear_arith)
        requires
            0 <= m,
            0 <= c.1,
    ;
}

/// Holding at least as much at every checkpoint gives at least as high a score.
pub proof fn lemma_score_monotone(s: Seq<Checkpoint>, t: Seq<Checkpoint>)
    requires
        nonneg(t),
        s.len() == t.len(),
        forall|i: int| #![trigger s[i]] 0 <= i < s.len() ==> s[i].1 == t[i].1 && s[i].0 >= t[i].0,
    ensures
        score(s) >= score(t),
    decreases s.len(),
{
    if s.len() > 0 {
        let n = s.len() - 1;
        assert(nonneg(t.drop_last()));
        lemma_score_monotone(s.drop_last(), t.drop_last());
        lemma_prefix_min_monotone(s, t, n);
        let a = prefix_min(s, n);
        let b = prefix_min(t, n);
        let w = s.last().1;
        assert(a * w >= b * w) by (nonlinear_arith)
            requires
                a >= b,
                0 <= w,
        ;
    }
}

pub proof fn lemma_prefix_min_monotone(s: Seq<Checkpoint>, t: Seq<Checkpoint>, k: int)
    requires
        0 <= k < s.len(),
        s.len() == t.len(),
        forall|i: int| #![trigger s[i]] 0 <= i < s.len() ==> s[i].1 == t[i].1 && s[i].0 >= t[i].0,
    ensures
        prefix_min(s, k) >= prefix_min(t, k),
    decreases k,
{
    assert(s[k].0 >= t[k].0);
    assert(s[0].0 >= t[0].0);
    if k > 0 {
        lemma_prefix_min_monotone(s, t, k - 1);
    }
}

/// The checkpoints `s` with every balance multiplied by `k`.
pub open spec fn scale(s: Seq<Checkpoint>, k: int) -> Seq<Checkpoint> {
    s.map_values(|c: Checkpoint| (k * c.0, c.1))
}

pub proof fn lemma_prefix_min_scale(s: Seq<Checkpoint>, k: int, j: int)
    requires
        0 <= k,
        0 <= j < s.len(),
    ensures
        prefix_min(scale(s, k), j) == k * prefix_min(s, j),
    decreases j,
{
    let t = scale(s, k);
    if j > 0 {
        lemma_prefix_min_scale(s, k, j - 1);
        let m = prefix_min(s, j - 1);
        let b = s[j].0;
        assert(t[j].0 == k * b);
        if b < m {
            assert(k * b <= k * m) by (nonlinear_arith)
                requires
                    b < m,
                    0 <= k,
            ;
        } else {
            assert(k * m <= k * b) by (nonlinear_arith)
                requires
                    m <= b,
                    0 <= k,
            ;
        }
    } else {
        assert(t[0].0 == k * s[0].0);
    }
}

/// Multiplying the balance at every checkpoint by `k` multiplies the score by `k`:
/// scores, and so rewards, are proportional to the balance held.
pub proof fn lemma_score_scale(s: Seq<Checkpoint>, k: int)
    requires
        0 <= k,
    ensures
        score(scale(s, k)) == k * score(s),
    decreases s.len(),
{
    if s.len() > 0 {
        let n = s.len() - 1;
        let t = scale(s, k);
        assert(t.drop_last() =~= scale(s.drop_last(), k));
        lemma_score_scale(s.drop_last(), k);
        lemma_prefix_min_scale(s, k, n);
        let a = score(s.drop_last());
        let m = prefix_min(s, n);
        let w = s.last().1;
        assert(t.last().1 == w);
        assert(k * a + (k * m) * w == k * (a + m * w)) by (nonlinear_arith);
    }
}

/// With the total fixed, an account with twice the score gets twice the reward, up to
/// the rounding of one division.
pub proof fn lemma_reward_doubles(pool: int, score: int, total: int)
    requires
        0 <= pool,
        0 <= score,
        0 < total,
    ensures
        2 * reward_of(pool, score, total) <= reward_of(pool, 2 * score, total),
        reward_of(pool, 2 * score, total) <= 2 * reward_of(pool, score, total) + 1,
{
    let x = pool * score;
    assert(pool * (2 * score) == 2 * x) by (nonlinear_arith)
        requires
            x == pool * score,
    ;
    let q = x / total;
    let r = x % total;
    assert(x == q * total + r && 0 <= r < total) by (nonlinear_arith)
        requires
            q == x / total,
            r == x % total,
            0 < total,
    ;
    let q2 = (2 * x) / total;
    assert(2 * x == 2 * q * total + 2 * r) by (nonlinear_arith)
        requires
            x == q * total + r,
    ;
    assert(2 * q <= q2 <= 2 * q + 1) by (nonlinear_arith)
        requires
            2 * x == 2 * q * total + 2 * r,
            0 <= r < total,
            q2 == (2 * x) / total,
            0 < total,
    ;
}

pub proof fn lemma_sum_nonneg(s: Seq<u128>)
    ensures
        0 <= sum(s),
    decreases s.len(),
{
    if s.len() > 0 {
        lemma_sum_nonneg(s.drop_last());
    }
}

pub proof fn lemma_sum_prefix(s: Seq<u128>, i: int)
    requires
        0 <= i <= s.len(),
    ensures
        sum(s.take(i)) <= sum(s),
    decreases s.len() - i,
{
    if i < s.len() {
        lemma_sum_prefix(s, i + 1);
        assert(s.take(i + 1).drop_last() =~= s.take(i));
    } else {
        assert(s.take(i) =~= s);
    }
}

/// Whether `pool` can be divided among `scores` without any intermediate value
/// exceeding the balance type: the scores add up to a positive amount that fits, and
/// every product of the pool and one score fits.
pub open spec fn distributable(pool: u128, scores: Seq<u128>) -> bool {
    &&& 0 < sum(scores) <= u128::MAX
    &&& forall|i: int| 0 <= i < scores.len() ==> pool * #[trigger] scores[i] <= u128::MAX
}

/// The sum of `scores`, or `None` where it does not fit the balance type.
pub fn total_score(scores: &Vec<u128>) -> (r: Option<u128>)
    ensures
        r == (if sum(scores@) <= u128::MAX {
            Some(sum(scores@) as u128)
        } else {
            None::<u128>
        }),
{
    let mut acc: u128 = 0;
    let mut i: usize = 0;
    while i < scores.len()
        invariant
            0 <= i <= scores.len(),
            acc == sum(scores@.take(i as int)),
        decreases scores.len() - i,
    {
        assert(scores@.take(i as int + 1).drop_last() =~= scores@.take(i as int));
        match acc.checked_add(scores[i]) {
            Some(v) => {
                acc = v;
            },
            None => {
                proof {
                    lemma_sum_prefix(scores@, i as int + 1);
                }
                return None;
            },
        }
        i = i + 1;
    }
    assert(scores@.take(i as int) =~= scores@);
    Some(acc)
}

/// Divides `pool` among accounts in proportion to their `scores`, rounding each reward
/// down; what the rounding leaves is not handed out. `None` where there is nothing to
/// divide by (no account, or every score zero) or where a product would overflow.
pub fn reward_amounts(pool: u128, scores: &Vec<u128>) -> (r: Option<Vec<u128>>)
    ensures
        r.is_some() == distributable(pool, scores@),
        r matches Some(v) ==> v@.len() == scores@.len() && forall|i: int|
            0 <= i < v@.len() ==> #[trigger] v@[i] == reward_of(
                pool as int,
                scores@[i] as int,
                sum(scores@),
            ),
{
    proof {
        lemma_sum_nonneg(scores@);
    }
    let total = match total_score(scores) {
        Some(t) => t,
        None => {
            return None;
        },
    };
    if total == 0 {
        return None;
    }
    let mut rewards: Vec<u128> = Vec::new();
    let mut i: usize = 0;
    while i < scores.len()
        invariant
            0 <= i <= scores.len(),
            0 < total,
            total == sum(scores@),
            rewards@.len() == i,
            forall|j: int| 0 <= j < i ==> pool * #[trigger] scores@[j] <= u128::MAX,
            forall|j: int|
                0 <= j < i ==> #[trigger] rewards@[j] == reward_of(
                    pool as int,
                    scores@[j] as int,
                    sum(scores@),
                ),
        decreases scores.len() - i,
    {
        match pool.checked_mul(scores[i]) {
            Some(p) => {
                rewards.push(p / total);
            },
            None => {
                return None;
            },
        }
        i = i + 1;
    }
    Some(rewards)
}

} // verus!
