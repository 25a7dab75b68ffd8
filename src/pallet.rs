use vstd::prelude::*;

use crate::score::{
    lemma_older_checkpoint_never_lowers, lemma_running_min_push, lemma_sum_nonneg, reward_of,
    running_min, score, sum, total_score, Checkpoint,
};
use crate::store::{ascending, insert_ascending, lemma_ascending_unique, lookup_or_zero, map_of};

verus! {

pub type AccountId = u64;

pub type BlockNumber = u64;

pub type Balance = u128;

/// Who asks for an administrative operation.
pub enum Origin {
    Root,
    Signed(AccountId),
    Unsigned,
}

#[derive(PartialEq, Eq, Structural, Debug, Clone, Copy)]
pub enum Error {
    /// The operation needs the privileged origin.
    Unauthorized,
}

/// The state of the reward engine: the weight schedule (look-back offset to share
/// weight) and the balance history, with the interval between minting blocks.
pub struct Pallet {
    mint_every_n_blocks: BlockNumber,
    coin_block_shares: Vec<(BlockNumber, u32)>,
    block_balances: Vec<((BlockNumber, AccountId), Balance)>,
}

/// What the engine holds: the schedule in ascending order of offset, and the balance
/// snapshots in the order they were taken.
pub struct PalletView {
    pub interval: BlockNumber,
    pub schedule: Seq<(BlockNumber, u32)>,
    pub snapshots: Seq<((BlockNumber, AccountId), Balance)>,
}

impl PalletView {
    pub open spec fn wf(self) -> bool {
        self.interval > 0 && ascending(self.schedule)
    }

    /// The weight schedule as a map from offset to share weight.
    pub open spec fn shares(self) -> Map<BlockNumber, u32> {
        map_of(self.schedule)
    }

    /// The balance history as a map from (block, account) to balance; a later snapshot
    /// of the same key replaces an earlier one.
    pub open spec fn history(self) -> Map<(BlockNumber, AccountId), Balance> {
        map_of(self.snapshots)
    }
}

impl View for Pallet {
    type V = PalletView;

    closed spec fn view(&self) -> PalletView {
        PalletView {
            interval: self.mint_every_n_blocks,
            schedule: self.coin_block_shares@,
            snapshots: self.block_balances@,
        }
    }
}

/// The balance of `account` recorded at `block`, zero where none was recorded.
pub open spec fn balance_at(
    h: Map<(BlockNumber, AccountId), Balance>,
    block: BlockNumber,
    account: AccountId,
) -> int {
    if h.contains_key((block, account)) {
        h[(block, account)] as int
    } else {
        0
    }
}

/// The checkpoints of `account` for a distribution at `block`, most recent first: one
/// for each offset of the schedule that does not reach back past block zero.
pub open spec fn checkpoints(
    schedule: Seq<(BlockNumber, u32)>,
    block: BlockNumber,
    h: Map<(BlockNumber, AccountId), Balance>,
    account: AccountId,
) -> Seq<Checkpoint>
    decreases schedule.len(),
{
    if schedule.len() == 0 {
        Seq::empty()
    } else {
        let rest = checkpoints(schedule.drop_last(), block, h, account);
        let offset = schedule.last().0;
        if offset <= block {
            rest.push((balance_at(h, (block - offset) as BlockNumber, account), schedule.last().1 as int))
        } else {
            rest
        }
    }
}

/// The score of `account` in a distribution at `block`.
pub open spec fn account_score_of(v: PalletView, block: BlockNumber, account: AccountId) -> int {
    score(checkpoints(v.schedule, block, v.history(), account))
}

/// Whether `block` is a minting block.
pub open spec fn is_minting(interval: BlockNumber, block: int) -> bool {
    block % (interval as int) == 0
}

/// Whether some offset of the schedule makes `block` that many blocks before a minting
/// block, so that balances are to be recorded at `block`.
pub open spec fn snapshot_due(v: PalletView, block: BlockNumber) -> bool {
    exists|i: int|
        0 <= i < v.schedule.len() && is_minting(v.interval, block + (#[trigger] v.schedule[i]).0)
}

/// The snapshots that record `accounts` (account, current balance) at `block`.
pub open spec fn snapshot_of(
    block: BlockNumber,
    accounts: Seq<(AccountId, Balance)>,
) -> Seq<((BlockNumber, AccountId), Balance)> {
    accounts.map_values(|a: (AccountId, Balance)| ((block, a.0), a.1))
}

/// The scores of `accounts` in a distribution at `block`.
pub open spec fn cycle_scores(
    v: PalletView,
    block: BlockNumber,
    accounts: Seq<(AccountId, Balance)>,
) -> Seq<int> {
    accounts.map_values(|a: (AccountId, Balance)| account_score_of(v, block, a.0))
}

pub open spec fn sum_int(s: Seq<int>) -> int
    decreases s.len(),
{
    if s.len() == 0 {
        0
    } else {
        sum_int(s.drop_last()) + s.last()
    }
}

/// Whether every score fits the balance type and their sum is positive and fits too.
pub open spec fn scores_fit(s: Seq<int>) -> bool {
    &&& forall|i: int| 0 <= i < s.len() ==> #[trigger] s[i] <= u128::MAX
    &&& 0 < sum_int(s) <= u128::MAX
}

/// `after` is `before` with the schedule replaced by the mapping of `pairs`.
pub open spec fn installs(
    before: PalletView,
    after: PalletView,
    pairs: Seq<(BlockNumber, u32)>,
) -> bool {
    &&& after.wf()
    &&& after.interval == before.interval
    &&& after.snapshots == before.snapshots
    &&& after.shares() == map_of(pairs)
}

pub proof fn lemma_checkpoints_bounded(
    schedule: Seq<(BlockNumber, u32)>,
    block: BlockNumber,
    h: Map<(BlockNumber, AccountId), Balance>,
    account: AccountId,
)
    ensures
        forall|i: int|
            #![trigger checkpoints(schedule, block, h, account)[i]]
            0 <= i < checkpoints(schedule, block, h, account).len() ==> 0 <= checkpoints(
                schedule,
                block,
                h,
                account,
            )[i].0 <= u128::MAX && 0 <= checkpoints(schedule, block, h, account)[i].1,
    decreases schedule.len(),
{
    if schedule.len() > 0 {
        let rest = checkpoints(schedule.drop_last(), block, h, account);
        let c = checkpoints(schedule, block, h, account);
        lemma_checkpoints_bounded(schedule.drop_last(), block, h, account);
        assert forall|i: int| 0 <= i < c.len() implies 0 <= #[trigger] c[i].0 <= u128::MAX && 0
            <= c[i].1 by {
            if i < rest.len() {
                assert(c[i] == rest[i]);
            }
        }
    }
}

/// Scores are never negative.
pub proof fn lemma_account_score_nonneg(v: PalletView, block: BlockNumber, account: AccountId)
    ensures
        0 <= account_score_of(v, block, account),
{
    let c = checkpoints(v.schedule, block, v.history(), account);
    lemma_checkpoints_bounded(v.schedule, block, v.history(), account);
    assert(crate::score::nonneg(c)) by {
        assert forall|i: int| #![trigger c[i]] 0 <= i < c.len() implies 0 <= c[i].0 && 0 <= c[i].1 by {
        }
    }
    crate::score::lemma_score_nonneg(c);
}

/// The checkpoints of the first offsets score no more than those of all of them.
pub proof fn lemma_checkpoints_prefix(
    schedule: Seq<(BlockNumber, u32)>,
    block: BlockNumber,
    h: Map<(BlockNumber, AccountId), Balance>,
    account: AccountId,
    i: int,
)
    requires
        0 <= i <= schedule.len(),
    ensures
        score(checkpoints(schedule.take(i), block, h, account)) <= score(
            checkpoints(schedule, block, h, account),
        ),
    decreases schedule.len() - i,
{
    if i < schedule.len() {
        lemma_checkpoints_prefix(schedule, block, h, account, i + 1);
        let s = schedule.take(i + 1);
        assert(s.drop_last() =~= schedule.take(i));
        let c = checkpoints(schedule.take(i), block, h, account);
        lemma_checkpoints_bounded(schedule.take(i), block, h, account);
        if schedule[i].0 <= block {
            lemma_older_checkpoint_never_lowers(
                c,
                (balance_at(h, (block - schedule[i].0) as BlockNumber, account), schedule[i].1 as int),
            );
        }
    } else {
        assert(schedule.take(i) =~= schedule);
    }
}

/// The snapshots of `s` taken at `before` or later, in order.
pub open spec fn kept(
    s: Seq<((BlockNumber, AccountId), Balance)>,
    before: BlockNumber,
) -> Seq<((BlockNumber, AccountId), Balance)>
    decreases s.len(),
{
    if s.len() == 0 {
        s
    } else if s.last().0.0 >= before {
        kept(s.drop_last(), before).push(s.last())
    } else {
        kept(s.drop_last(), before)
    }
}

/// Dropping the snapshots taken before `before` keeps every balance recorded at
/// `before` or later.
pub proof fn lemma_kept_history(
    s: Seq<((BlockNumber, AccountId), Balance)>,
    before: BlockNumber,
    block: BlockNumber,
    account: AccountId,
)
    requires
        block >= before,
    ensures
        balance_at(map_of(kept(s, before)), block, account) == balance_at(map_of(s), block, account),
    decreases s.len(),
{
    if s.len() > 0 {
        lemma_kept_history(s.drop_last(), before, block, account);
        if s.last().0.0 >= before {
            assert(kept(s, before).drop_last() =~= kept(s.drop_last(), before));
        }
    }
}

/// Checkpoints read only the balances at the blocks that the offsets select.
pub proof fn lemma_checkpoints_agree(
    schedule: Seq<(BlockNumber, u32)>,
    block: BlockNumber,
    h1: Map<(BlockNumber, AccountId), Balance>,
    h2: Map<(BlockNumber, AccountId), Balance>,
    account: AccountId,
)
    requires
        forall|i: int|
            0 <= i < schedule.len() && (#[trigger] schedule[i]).0 <= block ==> balance_at(
                h1,
                (block - schedule[i].0) as BlockNumber,
                account,
            ) == balance_at(h2, (block - schedule[i].0) as BlockNumber, account),
    ensures
        checkpoints(schedule, block, h1, account) == checkpoints(schedule, block, h2, account),
    decreases schedule.len(),
{
    if schedule.len() > 0 {
        let t = schedule.drop_last();
        assert forall|i: int| 0 <= i < t.len() && (#[trigger] t[i]).0 <= block implies balance_at(
            h1,
            (block - t[i].0) as BlockNumber,
            account,
        ) == balance_at(h2, (block - t[i].0) as BlockNumber, account) by {
            assert(t[i] == schedule[i]);
        }
        lemma_checkpoints_agree(t, block, h1, h2, account);
        assert(schedule.last() == schedule[schedule.len() - 1]);
    }
}

/// Pruning the history before `before` changes no score of a distribution at `block`
/// whose offsets all look back to `before` or later.
pub proof fn lemma_prune_keeps_scores(
    v: PalletView,
    before: BlockNumber,
    block: BlockNumber,
    account: AccountId,
)
    requires
        forall|i: int|
            0 <= i < v.schedule.len() && (#[trigger] v.schedule[i]).0 <= block ==> block
                - v.schedule[i].0 >= before,
    ensures
        account_score_of(PalletView { snapshots: kept(v.snapshots, before), ..v }, block, account)
            == account_score_of(v, block, account),
{
    let w = PalletView { snapshots: kept(v.snapshots, before), ..v };
    assert forall|i: int|
        0 <= i < v.schedule.len() && (#[trigger] v.schedule[i]).0 <= block implies balance_at(
        w.history(),
        (block - v.schedule[i].0) as BlockNumber,
        account,
    ) == balance_at(v.history(), (block - v.schedule[i].0) as BlockNumber, account) by {
        lemma_kept_history(v.snapshots, before, (block - v.schedule[i].0) as BlockNumber, account);
    }
    lemma_checkpoints_agree(v.schedule, block, w.history(), v.history(), account);
}

/// Installing the same schedule a second time changes nothing.
pub proof fn lemma_set_hold_shares_idempotent(
    start: PalletView,
    once: PalletView,
    twice: PalletView,
    pairs: Seq<(BlockNumber, u32)>,
)
    requires
        installs(start, once, pairs),
        installs(once, twice, pairs),
    ensures
        twice == once,
{
    lemma_ascending_unique(once.schedule, twice.schedule);
}

/// Two accounts that held the same balance at every checkpoint of a distribution get
/// the same score, and so the same reward.
pub proof fn lemma_equal_holdings_equal_reward(
    v: PalletView,
    block: BlockNumber,
    a: AccountId,
    b: AccountId,
    pool: int,
    total: int,
)
    requires
        forall|i: int|
            0 <= i < v.schedule.len() && (#[trigger] v.schedule[i]).0 <= block ==> balance_at(
                v.history(),
                (block - v.schedule[i].0) as BlockNumber,
                a,
            ) == balance_at(v.history(), (block - v.schedule[i].0) as BlockNumber, b),
    ensures
        account_score_of(v, block, a) == account_score_of(v, block, b),
        reward_of(pool, account_score_of(v, block, a), total) == reward_of(
            pool,
            account_score_of(v, block, b),
            total,
        ),
{
    lemma_checkpoints_equal(v.schedule, block, v.history(), a, b);
}


pub proof fn lemma_checkpoints_equal(
    schedule: Seq<(BlockNumber, u32)>,
    block: BlockNumber,
    h: Map<(BlockNumber, AccountId), Balance>,
    a: AccountId,
    b: AccountId,
)
    requires
        forall|i: int|
            0 <= i < schedule.len() && (#[trigger] schedule[i]).0 <= block ==> balance_at(
                h,
                (block - schedule[i].0) as BlockNumber,
                a,
            ) == balance_at(h, (block - schedule[i].0) as BlockNumber, b),
    ensures
        checkpoints(schedule, block, h, a) == checkpoints(schedule, block, h, b),
    decreases schedule.len(),
{
    if schedule.len() > 0 {
        let t = schedule.drop_last();
        assert forall|i: int| 0 <= i < t.len() && (#[trigger] t[i]).0 <= block implies balance_at(
            h,
            (block - t[i].0) as BlockNumber,
            a,
        ) == balance_at(h, (block - t[i].0) as BlockNumber, b) by {
            assert(t[i] == schedule[i]);
        }
        lemma_checkpoints_equal(t, block, h, a, b);
        assert(schedule.last() == schedule[schedule.len() - 1]);
    }
}

pub proof fn lemma_sum_agrees(a: Seq<u128>, b: Seq<int>)
    requires
        a.len() == b.len(),
        forall|i: int| 0 <= i < a.len() ==> a[i] as int == #[trigger] b[i],
    ensures
        sum(a) == sum_int(b),
    decreases a.len(),
{
    if a.len() > 0 {
        let (x, y) = (a.drop_last(), b.drop_last());
        assert forall|i: int| 0 <= i < x.len() implies x[i] as int == #[trigger] y[i] by {
            assert(x[i] == a[i] && y[i] == b[i]);
        }
        lemma_sum_agrees(x, y);
    }
}

impl Pallet {
    /// An engine with an empty schedule and no history, minting every
    /// `mint_every_n_blocks` blocks.
    pub fn new(mint_every_n_blocks: BlockNumber) -> (p: Pallet)
        requires
            mint_every_n_blocks > 0,
        ensures
            p@.wf(),
            p@.interval == mint_every_n_blocks,
            p@.schedule.len() == 0,
            p@.snapshots.len() == 0,
    {
        Pallet { mint_every_n_blocks, coin_block_shares: Vec::new(), block_balances: Vec::new() }
    }

    /// Replaces the whole weight schedule by `coin_block_shares` (offset, share weight);
    /// where an offset is given twice, the later weight wins. Only the root origin may.
    pub fn set_hold_shares(&mut self, origin: Origin, coin_block_shares: Vec<(BlockNumber, u32)>) -> (r:
        Result<(), Error>)
        requires
            old(self)@.wf(),
        ensures
            r is Ok <==> origin is Root,
            r is Ok ==> installs(old(self)@, final(self)@, coin_block_shares@),
            r is Err ==> r == Err::<(), Error>(Error::Unauthorized) && final(self)@ == old(self)@,
    {
        match origin {
            Origin::Root => {},
            _ => {
                return Err(Error::Unauthorized);
            },
        }
        let mut schedule: Vec<(BlockNumber, u32)> = Vec::new();
        let mut i: usize = 0;
        while i < coin_block_shares.len()
            invariant
                0 <= i <= coin_block_shares.len(),
                ascending(schedule@),
                map_of(schedule@) == map_of(coin_block_shares@.take(i as int)),
            decreases coin_block_shares.len() - i,
        {
            let (offset, shares) = coin_block_shares[i];
            insert_ascending(&mut schedule, offset, shares);
            assert(coin_block_shares@.take(i + 1).drop_last() =~= coin_block_shares@.take(i as int));
            i = i + 1;
        }
        assert(coin_block_shares@.take(i as int) =~= coin_block_shares@);
        self.coin_block_shares = schedule;
        Ok(())
    }

    /// The balance of `account` recorded at `block`, zero where none was recorded.
    pub fn balance_at_block(&self, block: BlockNumber, account: AccountId) -> (r: Balance)
        ensures
            r == balance_at(self@.history(), block, account),
    {
        lookup_or_zero(&self.block_balances, (block, account))
    }

    /// The score of `account` in a distribution at `block`, or `None` where it does not
    /// fit the balance type.
    pub fn account_score(&self, block: BlockNumber, account: AccountId) -> (r: Option<Balance>)
        requires
            self@.wf(),
        ensures
            r == (if account_score_of(self@, block, account) <= u128::MAX {
                Some(account_score_of(self@, block, account) as u128)
            } else {
                None::<u128>
            }),
    {
        let ghost sched = self@.schedule;
        let ghost h = self@.history();
        let mut acc: u128 = 0;
        let mut running: u128 = u128::MAX;
        let mut i: usize = 0;
        while i < self.coin_block_shares.len()
            invariant
                0 <= i <= sched.len(),
                sched == self@.schedule,
                h == self@.history(),
                acc == score(checkpoints(sched.take(i as int), block, h, account)),
                running == running_min(checkpoints(sched.take(i as int), block, h, account)),
            decreases sched.len() - i,
        {
            let (offset, shares) = self.coin_block_shares[i];
            let ghost before = checkpoints(sched.take(i as int), block, h, account);
            proof {
                assert(sched.take(i + 1).drop_last() =~= sched.take(i as int));
                lemma_checkpoints_bounded(sched.take(i as int), block, h, account);
            }
            if offset <= block {
                let b = self.balance_at_block(block - offset, account);
                if b < running {
                    running = b;
                }
                proof {
                    lemma_running_min_push(before, (b as int, shares as int));
                }
                let term = match running.checked_mul(shares as u128) {
                    Some(t) => t,
                    None => {
                        proof {
                            lemma_checkpoints_prefix(sched, block, h, account, i + 1);
                            lemma_checkpoints_bounded(sched.take(i as int), block, h, account);
                            crate::score::lemma_score_nonneg(before);
                        }
                        return None;
                    },
                };
                acc = match acc.checked_add(term) {
                    Some(t) => t,
                    None => {
                        proof {
                            lemma_checkpoints_prefix(sched, block, h, account, i + 1);
                        }
                        return None;
                    },
                };
            }
            i = i + 1;
        }
        assert(sched.take(i as int) =~= sched);
        Some(acc)
    }

    /// Records the current balance of each of `accounts` (account, balance) at `block`.
    pub fn record_balances(&mut self, block: BlockNumber, accounts: &Vec<(AccountId, Balance)>)
        ensures
            final(self)@.interval == old(self)@.interval,
            final(self)@.schedule == old(self)@.schedule,
            final(self)@.snapshots == old(self)@.snapshots + snapshot_of(block, accounts@),
    {
        let ghost start = self.block_balances@;
        let mut i: usize = 0;
        while i < accounts.len()
            invariant
                0 <= i <= accounts.len(),
                self.mint_every_n_blocks == old(self).mint_every_n_blocks,
                self.coin_block_shares@ == old(self).coin_block_shares@,
                start == old(self).block_balances@,
                self.block_balances@ == start + snapshot_of(block, accounts@.take(i as int)),
            decreases accounts.len() - i,
        {
            let (account, balance) = accounts[i];
            self.block_balances.push(((block, account), balance));
            assert(snapshot_of(block, accounts@.take(i + 1)) =~= snapshot_of(
                block,
                accounts@.take(i as int),
            ).push(((block, account), balance)));
            i = i + 1;
        }
        assert(accounts@.take(i as int) =~= accounts@);
    }

    /// Whether balances are to be recorded at `block`: some offset of the schedule lands
    /// `block` that many blocks before a minting block.
    pub fn is_snapshot_due(&self, block: BlockNumber) -> (r: bool)
        requires
            self@.wf(),
        ensures
            r == snapshot_due(self@, block),
    {
        let n = self.mint_every_n_blocks as u128;
        let mut i: usize = 0;
        while i < self.coin_block_shares.len()
            invariant
                0 <= i <= self@.schedule.len(),
                n == self@.interval,
                n > 0,
                forall|j: int|
                    0 <= j < i ==> !is_minting(self@.interval, block + (#[trigger] self@.schedule[j]).0),
            decreases self@.schedule.len() - i,
        {
            let offset = self.coin_block_shares[i].0;
            if (block as u128 + offset as u128) % n == 0 {
                assert(is_minting(self@.interval, block + self@.schedule[i as int].0));
                return true;
            }
            i = i + 1;
        }
        false
    }

    /// The work of one block, run once at the end of each block in increasing order of
    /// block number. Records the balances of `accounts` (every account with its current
    /// balance) where the schedule will need them; then, at a minting block, returns the
    /// score of each account, in the order of `accounts`, by which the reward pool is to
    /// be divided. Returns `None` where nothing is to be distributed: not a minting
    /// block, no account, every score zero, or a score or their sum too large for the
    /// balance type. The pool is to be withdrawn only where scores are returned.
    pub fn on_finalize(&mut self, block: BlockNumber, accounts: &Vec<(AccountId, Balance)>) -> (r:
        Option<Vec<Balance>>)
        requires
            old(self)@.wf(),
        ensures
            final(self)@.wf(),
            final(self)@.interval == old(self)@.interval,
            final(self)@.schedule == old(self)@.schedule,
            final(self)@.snapshots == if snapshot_due(old(self)@, block) {
                old(self)@.snapshots + snapshot_of(block, accounts@)
            } else {
                old(self)@.snapshots
            },
            r is Some <==> is_minting(final(self)@.interval, block as int) && scores_fit(
                cycle_scores(final(self)@, block, accounts@),
            ),
            r matches Some(v) ==> v@.len() == accounts@.len() && forall|i: int|
                0 <= i < v@.len() ==> #[trigger] v@[i] as int == cycle_scores(
                    final(self)@,
                    block,
                    accounts@,
                )[i],
            accounts@.len() == 0 ==> r is None,
    {
        if self.is_snapshot_due(block) {
            self.record_balances(block, accounts);
        }
        if block % self.mint_every_n_blocks != 0 {
            return None;
        }
        let ghost cycle = cycle_scores(self@, block, accounts@);
        let mut scores: Vec<Balance> = Vec::new();
        let mut i: usize = 0;
        while i < accounts.len()
            invariant
                0 <= i <= accounts.len(),
                self@.wf(),
                self@.interval == old(self)@.interval,
                self@.schedule == old(self)@.schedule,
                self@.snapshots == if snapshot_due(old(self)@, block) {
                    old(self)@.snapshots + snapshot_of(block, accounts@)
                } else {
                    old(self)@.snapshots
                },
                cycle == cycle_scores(self@, block, accounts@),
                scores@.len() == i,
                forall|j: int| 0 <= j < i ==> #[trigger] scores@[j] as int == cycle[j],
            decreases accounts.len() - i,
        {
            assert(cycle[i as int] == account_score_of(self@, block, accounts@[i as int].0));
            proof {
                lemma_account_score_nonneg(self@, block, accounts@[i as int].0);
            }
            match self.account_score(block, accounts[i].0) {
                Some(s) => {
                    let ghost prev = scores@;
                    scores.push(s);
                    assert forall|j: int| 0 <= j <= i implies #[trigger] scores@[j] as int
                        == cycle[j] by {
                        if j < i {
                            assert(scores@[j] == prev[j]);
                        }
                    }
                },
                None => {
                    assert(cycle[i as int] > u128::MAX);
                    return None;
                },
            }
            i = i + 1;
        }
        proof {
            lemma_sum_agrees(scores@, cycle);
            lemma_sum_nonneg(scores@);
            assert forall|j: int| 0 <= j < cycle.len() implies #[trigger] cycle[j] <= u128::MAX by {
                assert(scores@[j] as int == cycle[j]);
            }
        }
        match total_score(&scores) {
            Some(t) => {
                if t == 0 {
                    return None;
                }
            },
            None => {
                return None;
            },
        }
        Some(scores)
    }

    /// The number of blocks between minting blocks.
    pub fn mint_every_n_blocks(&self) -> (r: BlockNumber)
        ensures
            r == self@.interval,
    {
        self.mint_every_n_blocks
    }

    /// The weight schedule (offset, share weight) in ascending order of offset.
    pub fn hold_shares(&self) -> (r: Vec<(BlockNumber, u32)>)
        ensures
            r@ == self@.schedule,
    {
        let mut r: Vec<(BlockNumber, u32)> = Vec::new();
        let mut i: usize = 0;
        while i < self.coin_block_shares.len()
            invariant
                0 <= i <= self@.schedule.len(),
                r@ == self@.schedule.take(i as int),
            decreases self@.schedule.len() - i,
        {
            r.push(self.coin_block_shares[i]);
            assert(self@.schedule.take(i + 1) =~= self@.schedule.take(i as int).push(self@.schedule[i as int]));
            i = i + 1;
        }
        assert(self@.schedule.take(i as int) =~= self@.schedule);
        r
    }

    /// Drops every snapshot taken before block `before`. Distributions whose offsets all
    /// look back to `before` or later score as they would have without it.
    pub fn prune_history(&mut self, before: BlockNumber)
        ensures
            final(self)@.interval == old(self)@.interval,
            final(self)@.schedule == old(self)@.schedule,
            final(self)@.snapshots == kept(old(self)@.snapshots, before),
    {
        let ghost s = self.block_balances@;
        let mut out: Vec<((BlockNumber, AccountId), Balance)> = Vec::new();
        let mut i: usize = 0;
        while i < self.block_balances.len()
            invariant
                0 <= i <= s.len(),
                s == self.block_balances@,
                out@ == kept(s.take(i as int), before),
            decreases s.len() - i,
        {
            let e = self.block_balances[i];
            assert(s.take(i + 1).drop_last() =~= s.take(i as int));
            assert(s.take(i + 1).last() == s[i as int]);
            if e.0.0 >= before {
                out.push(e);
            }
            i = i + 1;
        }
        assert(s.take(i as int) =~= s);
        self.block_balances = out;
    }
}

} // verus!
