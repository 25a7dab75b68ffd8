use holder_rewards::pallet::{AccountId, Balance, BlockNumber, Error, Origin, Pallet};
use holder_rewards::score::reward_amounts;

const MINT_EVERY_N_BLOCKS: BlockNumber = 10;

/// A ledger of free balances and a reward pool around the engine, run block by block.
struct Chain {
    pallet: Pallet,
    block: BlockNumber,
    accounts: Vec<(AccountId, Balance)>,
    pool: Balance,
}

impl Chain {
    fn new() -> Chain {
        let mut chain = Chain { pallet: Pallet::new(MINT_EVERY_N_BLOCKS), block: 1, accounts: vec![], pool: 0 };
        chain.step_block();
        assert_eq!(chain.pallet.set_hold_shares(Origin::Root, vec![(0, 1)]), Ok(()));
        chain
    }

    fn free_balance(&self, id: AccountId) -> Balance {
        self.accounts.iter().find(|a| a.0 == id).map(|a| a.1).unwrap_or(0)
    }

    fn make_free_balance_be(&mut self, id: AccountId, balance: Balance) {
        match self.accounts.iter_mut().find(|a| a.0 == id) {
            Some(a) => a.1 = balance,
            None => self.accounts.push((id, balance)),
        }
    }

    fn deposit_creating(&mut self, id: AccountId, amount: Balance) {
        let b = self.free_balance(id);
        self.make_free_balance_be(id, b.saturating_add(amount));
    }

    fn transfer(&mut self, from: AccountId, to: AccountId, amount: Balance) {
        let b = self.free_balance(from);
        self.make_free_balance_be(from, b - amount);
        self.deposit_creating(to, amount);
    }

    fn step_block(&mut self) {
        let accounts = self.accounts.clone();
        if let Some(scores) = self.pallet.on_finalize(self.block, &accounts) {
            let pool = std::mem::replace(&mut self.pool, 0);
            match reward_amounts(pool, &scores) {
                Some(rewards) => {
                    for (a, r) in accounts.iter().zip(rewards.iter()) {
                        if *r > 0 {
                            self.deposit_creating(a.0, *r);
                        }
                    }
                }
                None => self.pool = pool,
            }
        }
        self.block += 1;
    }

    fn run_to_next_minting(&mut self) {
        loop {
            self.step_block();
            if self.block % MINT_EVERY_N_BLOCKS == 1 {
                break;
            }
        }
    }
}

#[test]
fn distributes_to_single_user() {
    let mut chain = Chain::new();
    chain.pool = 100_000;
    chain.deposit_creating(1, 100_000);
    chain.run_to_next_minting();
    assert_eq!(chain.free_balance(1), 200_000);
}

#[test]
fn distributes_among_many_users() {
    let mut chain = Chain::new();
    chain.pool = 100_000;
    chain.deposit_creating(1, 100_000);
    chain.deposit_creating(2, 100_000);
    chain.deposit_creating(3, 100_000);
    chain.run_to_next_minting();
    assert_eq!(chain.free_balance(1), 100_000 + 100_000 / 3);
    assert_eq!(chain.free_balance(2), 100_000 + 100_000 / 3);
    assert_eq!(chain.free_balance(3), 100_000 + 100_000 / 3);
}

#[test]
fn distributes_proportional_to_balance() {
    let mut chain = Chain::new();
    chain.pool = 100_000;
    chain.deposit_creating(1, 100_000);
    chain.deposit_creating(2, 50_000);
    chain.deposit_creating(3, 50_000);
    chain.run_to_next_minting();
    assert_eq!(chain.free_balance(1), 100_000 + 100_000 / 2);
    assert_eq!(chain.free_balance(2), 50_000 + 100_000 / 4);
    assert_eq!(chain.free_balance(3), 50_000 + 100_000 / 4);
}

#[test]
fn older_coins_receive_more() {
    let mut chain = Chain::new();
    assert_eq!(
        chain.pallet.set_hold_shares(Origin::Root, vec![(0, 1), (MINT_EVERY_N_BLOCKS, 1)]),
        Ok(())
    );
    chain.deposit_creating(1, 100_000);
    chain.run_to_next_minting();
    chain.deposit_creating(2, 100_000);
    chain.deposit_creating(3, 100_000);
    chain.pool = 100_000;
    chain.run_to_next_minting();
    assert_eq!(chain.free_balance(1), 100_000 + 100_000 / 2);
    assert_eq!(chain.free_balance(2), 100_000 + 100_000 / 4);
    assert_eq!(chain.free_balance(3), 100_000 + 100_000 / 4);
}

#[test]
fn older_coins_after_transfer() {
    let mut chain = Chain::new();
    assert_eq!(
        chain.pallet.set_hold_shares(Origin::Root, vec![(0, 1), (MINT_EVERY_N_BLOCKS, 1)]),
        Ok(())
    );
    chain.deposit_creating(1, 100_000);
    chain.run_to_next_minting();
    chain.transfer(1, 2, 50_000);
    chain.deposit_creating(3, 50_000);
    chain.pool = 100_000;
    chain.run_to_next_minting();
    let expected_shares = 4;
    let share_amount = 100_000 / expected_shares;
    assert_eq!(chain.free_balance(1), 50_000 + share_amount * 2);
    assert_eq!(chain.free_balance(2), 50_000 + share_amount);
    assert_eq!(chain.free_balance(3), 50_000 + share_amount);
}

#[test]
fn older_coins_intermittent_drop() {
    let mut chain = Chain::new();
    assert_eq!(
        chain.pallet.set_hold_shares(
            Origin::Root,
            vec![(0, 1), (MINT_EVERY_N_BLOCKS, 1), (MINT_EVERY_N_BLOCKS * 2, 1)]
        ),
        Ok(())
    );
    chain.make_free_balance_be(1, 100_000);
    chain.run_to_next_minting();
    chain.make_free_balance_be(1, 50_000);
    chain.run_to_next_minting();
    chain.make_free_balance_be(1, 100_000);
    chain.make_free_balance_be(2, 50_000);
    chain.pool = 100_000;
    chain.run_to_next_minting();
    let expected_shares = 5;
    let share_amount = 100_000 / expected_shares;
    assert_eq!(chain.free_balance(1), 100_000 + share_amount * 4);
    assert_eq!(chain.free_balance(2), 50_000 + share_amount);
}

#[test]
fn no_accounts_leaves_pool_untouched() {
    let mut chain = Chain::new();
    chain.pool = 100_000;
    chain.run_to_next_minting();
    assert_eq!(chain.pool, 100_000);
}

#[test]
fn zero_scores_leave_pool_untouched() {
    let mut chain = Chain::new();
    chain.make_free_balance_be(1, 0);
    chain.make_free_balance_be(2, 0);
    chain.pool = 100_000;
    chain.run_to_next_minting();
    assert_eq!(chain.pool, 100_000);
    assert_eq!(chain.free_balance(1), 0);
    assert_eq!(chain.free_balance(2), 0);
}

#[test]
fn equal_holders_get_equal_rewards() {
    let mut chain = Chain::new();
    assert_eq!(chain.pallet.set_hold_shares(Origin::Root, vec![(0, 2), (5, 3)]), Ok(()));
    chain.deposit_creating(1, 7_000);
    chain.deposit_creating(2, 7_000);
    chain.deposit_creating(3, 1_000);
    chain.pool = 99_999;
    chain.run_to_next_minting();
    chain.run_to_next_minting();
    let r1 = chain.free_balance(1) - 7_000;
    let r2 = chain.free_balance(2) - 7_000;
    assert_eq!(r1, r2);
    assert!(r1 > 0);
}

#[test]
fn snapshots_only_where_needed() {
    let mut pallet = Pallet::new(10);
    assert_eq!(pallet.set_hold_shares(Origin::Root, vec![(3, 1)]), Ok(()));
    assert!(pallet.is_snapshot_due(7));
    assert!(pallet.is_snapshot_due(17));
    assert!(!pallet.is_snapshot_due(10));
    assert_eq!(pallet.on_finalize(7, &vec![(1, 500)]), None);
    assert_eq!(pallet.on_finalize(8, &vec![(1, 900)]), None);
    assert_eq!(pallet.balance_at_block(7, 1), 500);
    assert_eq!(pallet.balance_at_block(8, 1), 0);
    assert_eq!(pallet.on_finalize(10, &vec![(1, 900)]), Some(vec![500]));
    assert_eq!(pallet.account_score(10, 1), Some(500));
}

#[test]
fn offsets_beyond_genesis_are_skipped() {
    let mut pallet = Pallet::new(10);
    assert_eq!(pallet.set_hold_shares(Origin::Root, vec![(0, 1), (20, 1)]), Ok(()));
    assert_eq!(pallet.on_finalize(10, &vec![(1, 400)]), Some(vec![400]));
}

#[test]
fn running_minimum_caps_older_checkpoints() {
    let mut pallet = Pallet::new(10);
    assert_eq!(pallet.set_hold_shares(Origin::Root, vec![(0, 1), (10, 1), (20, 1)]), Ok(()));
    pallet.record_balances(10, &vec![(1, 100)]);
    pallet.record_balances(20, &vec![(1, 50)]);
    pallet.record_balances(30, &vec![(1, 100)]);
    // 100 at offset 0, then 50, then 50 again although 100 was held back then.
    assert_eq!(pallet.account_score(30, 1), Some(100 + 50 + 50));
}

#[test]
fn older_offset_never_lowers_score() {
    let mut pallet = Pallet::new(10);
    pallet.record_balances(10, &vec![(1, 100)]);
    pallet.record_balances(20, &vec![(1, 100)]);
    assert_eq!(pallet.set_hold_shares(Origin::Root, vec![(0, 1)]), Ok(()));
    let recent = pallet.account_score(20, 1).unwrap();
    assert_eq!(pallet.set_hold_shares(Origin::Root, vec![(0, 1), (10, 1)]), Ok(()));
    let older = pallet.account_score(20, 1).unwrap();
    assert_eq!(recent, 100);
    assert_eq!(older, 200);
}

#[test]
fn doubling_balance_doubles_reward() {
    assert_eq!(reward_amounts(1_000, &vec![100, 100, 200]), Some(vec![250, 250, 500]));
    assert_eq!(reward_amounts(1_000, &vec![100, 200, 400]), Some(vec![142, 285, 571]));
}

#[test]
fn reward_amounts_floor_division() {
    assert_eq!(reward_amounts(100_000, &vec![1, 1, 1]), Some(vec![33_333, 33_333, 33_333]));
}

#[test]
fn reward_amounts_nothing_to_divide() {
    assert_eq!(reward_amounts(100, &vec![]), None);
    assert_eq!(reward_amounts(100, &vec![0, 0]), None);
}

#[test]
fn reward_amounts_overflow_fails_closed() {
    assert_eq!(reward_amounts(u128::MAX, &vec![2, 1]), None);
    assert_eq!(reward_amounts(5, &vec![u128::MAX, 1]), None);
    assert_eq!(reward_amounts(u128::MAX, &vec![1, 0]), Some(vec![u128::MAX, 0]));
}

#[test]
fn score_overflow_skips_cycle() {
    let mut pallet = Pallet::new(10);
    assert_eq!(pallet.set_hold_shares(Origin::Root, vec![(0, 2)]), Ok(()));
    assert_eq!(pallet.on_finalize(10, &vec![(1, u128::MAX)]), None);
    assert_eq!(pallet.account_score(10, 1), None);
    assert_eq!(pallet.on_finalize(20, &vec![(1, u128::MAX / 2)]), Some(vec![u128::MAX - 1]));
}

#[test]
fn total_overflow_skips_cycle() {
    let mut pallet = Pallet::new(10);
    assert_eq!(pallet.set_hold_shares(Origin::Root, vec![(0, 1)]), Ok(()));
    assert_eq!(pallet.on_finalize(10, &vec![(1, u128::MAX), (2, 1)]), None);
}

#[test]
fn set_hold_shares_requires_root() {
    let mut pallet = Pallet::new(10);
    assert_eq!(pallet.set_hold_shares(Origin::Root, vec![(4, 2)]), Ok(()));
    assert_eq!(pallet.set_hold_shares(Origin::Signed(1), vec![(0, 1)]), Err(Error::Unauthorized));
    assert_eq!(pallet.set_hold_shares(Origin::Unsigned, vec![(0, 1)]), Err(Error::Unauthorized));
    assert_eq!(pallet.hold_shares(), vec![(4, 2)]);
}

#[test]
fn set_hold_shares_sorts_and_replaces() {
    let mut pallet = Pallet::new(10);
    assert_eq!(pallet.set_hold_shares(Origin::Root, vec![(20, 1), (0, 3), (10, 2), (0, 5)]), Ok(()));
    assert_eq!(pallet.hold_shares(), vec![(0, 5), (10, 2), (20, 1)]);
    assert_eq!(pallet.set_hold_shares(Origin::Root, vec![(7, 0)]), Ok(()));
    assert_eq!(pallet.hold_shares(), vec![(7, 0)]);
    assert_eq!(pallet.mint_every_n_blocks(), 10);
}

#[test]
fn set_hold_shares_twice_same_as_once() {
    let pairs = vec![(10, 2), (0, 1), (30, 4)];
    let mut once = Pallet::new(10);
    assert_eq!(once.set_hold_shares(Origin::Root, pairs.clone()), Ok(()));
    let mut twice = Pallet::new(10);
    assert_eq!(twice.set_hold_shares(Origin::Root, pairs.clone()), Ok(()));
    assert_eq!(twice.set_hold_shares(Origin::Root, pairs), Ok(()));
    assert_eq!(once.hold_shares(), twice.hold_shares());
}

#[test]
fn pruning_keeps_what_later_distributions_read() {
    let mut pallet = Pallet::new(10);
    assert_eq!(pallet.set_hold_shares(Origin::Root, vec![(0, 1), (10, 1)]), Ok(()));
    assert_eq!(pallet.on_finalize(10, &vec![(1, 300)]), Some(vec![300]));
    assert_eq!(pallet.on_finalize(20, &vec![(1, 300)]), Some(vec![600]));
    pallet.prune_history(20);
    assert_eq!(pallet.balance_at_block(10, 1), 0);
    assert_eq!(pallet.balance_at_block(20, 1), 300);
    assert_eq!(pallet.on_finalize(30, &vec![(1, 300)]), Some(vec![600]));
}
