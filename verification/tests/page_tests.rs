use validator_core::keys::HashValue;
use validator_core::keys::Pubkey;
use validator_core::page::Call;
use validator_core::page_table::PageTable;

const N: usize = 2;

fn key(n: u64) -> Pubkey {
    Pubkey::new(n, n + 100, n + 200, n + 300)
}

/// A transfer of 1 token with fee 1, from a distinct caller to a distinct
/// destination, at version 1.
fn fresh_tx(i: u64, salt: u64) -> Call {
    Call::new_tx(
        key(1 + i + salt * 1000),
        0,
        HashValue::default_hash(),
        1,
        1,
        1,
        key(500 + i + salt * 1000),
    )
}

fn batch(salt: u64) -> Vec<Call> {
    (0..N as u64).map(|i| fresh_tx(i, salt)).collect()
}

#[test]
fn mem_lock() {
    let mut pt = PageTable::new();
    let transactions = batch(1);
    let mut lock = vec![false; N];
    let mut lock2 = vec![false; N];
    pt.acquire_memory_lock(&transactions, &mut lock);
    for x in &lock {
        assert!(*x);
    }
    pt.acquire_memory_lock(&transactions, &mut lock2);
    for x in &lock2 {
        assert!(!*x);
    }
    pt.release_memory_lock(&transactions, &lock);

    pt.acquire_memory_lock(&transactions, &mut lock2);
    for x in &lock2 {
        assert!(*x);
    }
    pt.release_memory_lock(&transactions, &lock2);
}

#[test]
fn validate_debits_miss() {
    let mut pt = PageTable::new();
    let fill_table = batch(2);
    pt.force_allocate(&fill_table, true, 1_000_000);
    let transactions = batch(3);
    let mut lock = vec![false; N];
    let mut from_pages = vec![None; N];
    pt.acquire_memory_lock(&transactions, &mut lock);
    pt.validate_debits(&transactions, &lock, &mut from_pages);
    for x in &from_pages {
        assert!(x.is_none());
    }
}

#[test]
fn validate_debits_hit() {
    let mut pt = PageTable::new();
    let transactions = batch(4);
    pt.force_allocate(&transactions, true, 1_000_000);
    let mut lock = vec![false; N];
    let mut from_pages = vec![None; N];
    pt.acquire_memory_lock(&transactions, &mut lock);
    pt.validate_debits(&transactions, &lock, &mut from_pages);
    for x in &from_pages {
        assert!(x.is_some());
    }
}

#[test]
fn validate_debits_low_version() {
    let mut pt = PageTable::new();
    let mut transactions = batch(5);
    pt.force_allocate(&transactions, true, 1_000_000);
    let mut lock = vec![false; N];
    let mut from_pages = vec![None; N];
    pt.acquire_memory_lock(&transactions, &mut lock);
    for tx in &mut transactions {
        tx.version = 0;
    }
    pt.validate_debits(&transactions, &lock, &mut from_pages);
    for x in &from_pages {
        assert!(x.is_none());
    }
}

#[test]
fn find_new_keys_all() {
    let mut pt = PageTable::new();
    let transactions = batch(6);
    pt.force_allocate(&transactions, true, 1_000_000);
    let mut lock = vec![false; N];
    let mut from_pages = vec![None; N];
    let mut to_pages = vec![None; N];
    pt.acquire_memory_lock(&transactions, &mut lock);
    pt.validate_debits(&transactions, &lock, &mut from_pages);
    pt.find_new_keys(&transactions, &from_pages, &mut to_pages);
    for x in &to_pages {
        assert!(x.is_none());
    }
}

#[test]
fn find_new_keys_none() {
    let mut pt = PageTable::new();
    let transactions = batch(7);
    pt.force_allocate(&transactions, true, 1_000_000);
    pt.force_allocate(&transactions, false, 1_000_000);
    let mut lock = vec![false; N];
    let mut from_pages = vec![None; N];
    let mut to_pages = vec![None; N];
    pt.acquire_memory_lock(&transactions, &mut lock);
    pt.validate_debits(&transactions, &lock, &mut from_pages);
    pt.find_new_keys(&transactions, &from_pages, &mut to_pages);
    for x in &to_pages {
        assert!(x.is_some());
    }
}

#[test]
fn allocate_new_keys_all() {
    let mut pt = PageTable::new();
    let transactions = batch(8);
    pt.force_allocate(&transactions, true, 1_000_000);
    let mut lock = vec![false; N];
    let mut from_pages = vec![None; N];
    let mut to_pages = vec![None; N];
    pt.acquire_memory_lock(&transactions, &mut lock);
    pt.validate_debits(&transactions, &lock, &mut from_pages);
    pt.find_new_keys(&transactions, &from_pages, &mut to_pages);
    pt.allocate_keys(&transactions, &from_pages, &mut to_pages);
    for x in &to_pages {
        assert!(x.is_some());
    }
}

#[test]
fn allocate_new_keys_none() {
    let mut pt = PageTable::new();
    let transactions = batch(9);
    pt.force_allocate(&transactions, true, 1_000_000);
    pt.force_allocate(&transactions, false, 1_000_000);
    let mut lock = vec![false; N];
    let mut from_pages = vec![None; N];
    let mut to_pages = vec![None; N];
    pt.acquire_memory_lock(&transactions, &mut lock);
    pt.validate_debits(&transactions, &lock, &mut from_pages);
    pt.find_new_keys(&transactions, &from_pages, &mut to_pages);
    pt.allocate_keys(&transactions, &from_pages, &mut to_pages);
    for x in &to_pages {
        assert!(x.is_some());
    }
}

#[test]
fn move_funds() {
    let mut pt = PageTable::new();
    let transactions = batch(10);
    pt.force_allocate(&transactions, true, 10);
    let mut lock = vec![false; N];
    let mut from_pages = vec![None; N];
    let mut to_pages = vec![None; N];
    pt.acquire_memory_lock(&transactions, &mut lock);
    pt.validate_debits(&transactions, &lock, &mut from_pages);
    pt.check_pages(&transactions, &from_pages, &to_pages);
    pt.find_new_keys(&transactions, &from_pages, &mut to_pages);
    pt.check_pages(&transactions, &from_pages, &to_pages);
    pt.allocate_keys(&transactions, &from_pages, &mut to_pages);
    pt.check_pages(&transactions, &from_pages, &to_pages);
    pt.load_and_execute(&transactions, &from_pages, &to_pages);
    pt.check_pages(&transactions, &from_pages, &to_pages);
    for (i, x) in transactions.iter().enumerate() {
        assert!(to_pages[i].is_some());
        assert!(from_pages[i].is_some());
        assert_eq!(pt.get_balance(&x.inkeys[1]), Some(x.amount));
        assert_eq!(pt.get_version(&x.inkeys[0]), Some(x.version));
        assert_eq!(pt.get_balance(&x.inkeys[0]), Some(10 - (x.amount + x.fee)));
    }
}

/// Two calls whose caller keys collide: the second loses the lock and only
/// the first call's balances change.
#[test]
fn colliding_callers_lose_the_lock() {
    let mut pt = PageTable::new();
    let caller = key(9000);
    let first = Call::new_tx(caller, 0, HashValue::default_hash(), 5, 1, 1, key(9001));
    let second = Call::new_tx(caller, 0, HashValue::default_hash(), 3, 1, 2, key(9002));
    let seed = vec![first.clone()];
    let transactions = vec![first, second];
    pt.force_allocate(&seed, true, 100);
    let mut lock = vec![false; 2];
    let mut from_pages = vec![None; 2];
    let mut to_pages = vec![None; 2];
    pt.acquire_memory_lock(&transactions, &mut lock);
    assert!(lock[0]);
    assert!(!lock[1]);
    pt.validate_debits(&transactions, &lock, &mut from_pages);
    assert!(from_pages[0].is_some());
    assert!(from_pages[1].is_none());
    pt.find_new_keys(&transactions, &from_pages, &mut to_pages);
    pt.allocate_keys(&transactions, &from_pages, &mut to_pages);
    pt.load_and_execute(&transactions, &from_pages, &to_pages);
    pt.release_memory_lock(&transactions, &lock);

    // Only the first call committed: caller paid 5 + 1, first destination
    // received 5, the second destination never appeared.
    assert_eq!(pt.get_balance(&caller), Some(94));
    assert_eq!(pt.get_balance(&key(9001)), Some(5));
    assert_eq!(pt.get_balance(&key(9002)), None);
}

/// A transfer of 5 tokens with fee 1 from a page holding 10: the caller
/// keeps 4 at the call's version, the new destination holds 5.
#[test]
fn transfer_posts_exact_balances() {
    let mut pt = PageTable::new();
    let a = key(9100);
    let b = key(9101);
    let tx = Call::new_tx(a, 0, HashValue::default_hash(), 5, 1, 1, b);
    let seed = vec![tx.clone()];
    pt.force_allocate(&seed, true, 10);
    let transactions = vec![tx];
    let mut lock = vec![false; 1];
    let mut from_pages = vec![None; 1];
    let mut to_pages = vec![None; 1];
    pt.acquire_memory_lock(&transactions, &mut lock);
    pt.validate_debits(&transactions, &lock, &mut from_pages);
    pt.find_new_keys(&transactions, &from_pages, &mut to_pages);
    pt.allocate_keys(&transactions, &from_pages, &mut to_pages);
    pt.load_and_execute(&transactions, &from_pages, &to_pages);
    pt.release_memory_lock(&transactions, &lock);

    assert_eq!(pt.get_balance(&a), Some(4));
    assert_eq!(pt.get_version(&a), Some(1));
    assert_eq!(pt.get_balance(&b), Some(5));
}

/// The batch burns exactly its fees: the sum of all live balances drops by
/// one fee per executed call and by nothing else.
#[test]
fn batch_conserves_balances_minus_fees() {
    let mut pt = PageTable::new();
    let transactions = batch(11);
    pt.force_allocate(&transactions, true, 10);
    let pre: u64 = transactions
        .iter()
        .map(|t| pt.get_balance(&t.inkeys[0]).unwrap())
        .sum();
    let mut lock = vec![false; N];
    let mut from_pages = vec![None; N];
    let mut to_pages = vec![None; N];
    pt.acquire_memory_lock(&transactions, &mut lock);
    pt.validate_debits(&transactions, &lock, &mut from_pages);
    pt.find_new_keys(&transactions, &from_pages, &mut to_pages);
    pt.allocate_keys(&transactions, &from_pages, &mut to_pages);
    pt.load_and_execute(&transactions, &from_pages, &to_pages);
    pt.release_memory_lock(&transactions, &lock);
    let post: u64 = transactions
        .iter()
        .map(|t| {
            pt.get_balance(&t.inkeys[0]).unwrap() + pt.get_balance(&t.inkeys[1]).unwrap()
        })
        .sum();
    let fees: u64 = transactions.iter().map(|t| t.fee).sum();
    assert_eq!(post, pre - fees);
}

/// Re-running the whole pipeline on the same batch with unchanged
/// versions changes nothing: every call now fails validation.
#[test]
fn rerun_batch_is_a_noop() {
    let mut pt = PageTable::new();
    let transactions = batch(12);
    pt.force_allocate(&transactions, true, 10);

    for round in 0..2 {
        let mut lock = vec![false; N];
        let mut from_pages = vec![None; N];
        let mut to_pages = vec![None; N];
        pt.acquire_memory_lock(&transactions, &mut lock);
        pt.validate_debits(&transactions, &lock, &mut from_pages);
        pt.find_new_keys(&transactions, &from_pages, &mut to_pages);
        pt.allocate_keys(&transactions, &from_pages, &mut to_pages);
        pt.load_and_execute(&transactions, &from_pages, &to_pages);
        pt.release_memory_lock(&transactions, &lock);
        if round == 1 {
            for x in &from_pages {
                assert!(x.is_none());
            }
        }
    }
    // The balances are those of a single run.
    for x in &transactions {
        assert_eq!(pt.get_balance(&x.inkeys[0]), Some(10 - (x.amount + x.fee)));
        assert_eq!(pt.get_balance(&x.inkeys[1]), Some(x.amount));
    }
}

/// Fill a blob with the executable calls of a batch.
#[test]
fn fill_blob_takes_executable_calls() {
    let mut pt = PageTable::new();
    let transactions = batch(13);
    pt.force_allocate(&transactions, true, 10);
    let mut lock = vec![false; N];
    let mut from_pages = vec![None; N];
    let mut to_pages = vec![None; N];
    pt.acquire_memory_lock(&transactions, &mut lock);
    pt.validate_debits(&transactions, &lock, &mut from_pages);
    pt.find_new_keys(&transactions, &from_pages, &mut to_pages);
    pt.allocate_keys(&transactions, &from_pages, &mut to_pages);
    let mut blob: Vec<Call> = (0..N as u64).map(|i| fresh_tx(i, 99)).collect();
    let mut filled: usize = 0;
    PageTable::fill_blob(&transactions, &from_pages, &to_pages, &mut blob, &mut filled);
    assert_eq!(filled, N);
    for i in 0..N {
        assert_eq!(blob[i], transactions[i]);
    }
}
