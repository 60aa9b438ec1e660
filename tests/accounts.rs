use exchange::accounts::Accounts;
use exchange::errors::AccountingError;
use exchange::tx::Tx;

#[test]
fn when_a_new_user_makes_a_deposit_it_is_added_in_accounts() {
    let mut accounts = Accounts::new();
    let signer = "client_1";
    let deposit = 100;

    let sut = accounts.deposit(signer, deposit);

    assert_eq!(
        Tx::Deposit {
            account: signer.to_string(),
            amount: deposit
        },
        sut.unwrap()
    );
    assert_eq!(accounts.balance(signer).unwrap(), deposit);
}

#[test]
fn when_an_existent_user_makes_a_transaction_the_amount_is_correctly_updated() {
    let mut accounts = Accounts::new();
    let signer = "client_1";
    let first_deposit = 100;
    let second_deposit = 150;

    accounts
        .deposit(signer, first_deposit)
        .expect("first deposit failed");

    let sut = accounts.deposit(signer, second_deposit);

    assert_eq!(
        Tx::Deposit {
            account: signer.to_string(),
            amount: second_deposit
        },
        sut.unwrap()
    );
    assert_eq!(
        accounts.balance(signer).unwrap(),
        first_deposit + second_deposit
    );
}

#[test]
fn errors_when_a_deposit_causes_an_overflow() {
    let mut accounts = Accounts::new();
    let signer = "client_1";
    let first_deposit = 100;
    let second_deposit = u64::MAX;

    accounts
        .deposit(signer, first_deposit)
        .expect("deposit failed");

    let previous_accounts = accounts.clone();
    let sut = accounts.deposit(signer, second_deposit);

    assert_eq!(
        Err(AccountingError::AccountOverFunded(
            signer.to_string(),
            second_deposit
        )),
        sut
    );
    assert_eq!(previous_accounts, accounts);
}

#[test]
fn withdrawing_correctly_updates_the_account_on_the_happy_path() {
    let mut accounts = Accounts::new();
    let signer = "client_1";
    let deposit = 100;
    let withdraw = 50;

    accounts.deposit(signer, deposit).expect("deposit failed");

    let sut = accounts.withdraw(signer, withdraw);

    assert_eq!(
        Tx::Withdraw {
            account: signer.to_string(),
            amount: withdraw
        },
        sut.unwrap()
    );
    assert_eq!(accounts.balance(signer).unwrap(), deposit - withdraw);
}

#[test]
fn errors_when_withdrawing_from_a_nonexistent_account() {
    let mut accounts = Accounts::new();
    let signer = "client_1";
    let withdraw = 100;

    let previous_accounts = accounts.clone();
    let sut = accounts.withdraw(signer, withdraw);

    assert_eq!(
        Err(AccountingError::AccountNotFound(signer.to_string())),
        sut
    );
    assert_eq!(previous_accounts, accounts);
}

#[test]
fn errors_when_withdrawing_more_than_is_available() {
    let mut accounts = Accounts::new();
    let signer = "client_1";
    let deposit = 100;
    let withdraw = 200;

    accounts.deposit(signer, deposit).expect("deposit failed");

    let previous_accounts = accounts.clone();
    let sut = accounts.withdraw(signer, withdraw);

    assert_eq!(
        Err(AccountingError::AccountUnderFunded(
            signer.to_string(),
            withdraw
        )),
        sut
    );
    assert_eq!(previous_accounts, accounts);
}

#[test]
fn sending_money_correctly_updates_both_accounts_on_the_happy_path() {
    let mut accounts = Accounts::new();

    let sender = "client_1";
    let sender_deposit = 100;
    accounts
        .deposit(sender, sender_deposit)
        .expect("deposit failed");

    let recipient = "client_2";

    let transferred_amount = 50;

    let sut = accounts.send(sender, recipient, transferred_amount);

    assert_eq!(
        (
            Tx::Withdraw {
                account: sender.to_string(),
                amount: transferred_amount
            },
            Tx::Deposit {
                account: recipient.to_string(),
                amount: transferred_amount
            }
        ),
        sut.unwrap()
    );
    assert_eq!(
        accounts.balance(sender).unwrap(),
        sender_deposit - transferred_amount
    );
    assert_eq!(accounts.balance(recipient).unwrap(), transferred_amount);
}

#[test]
fn balance_of_unknown_account_is_none() {
    let accounts = Accounts::new();
    assert_eq!(accounts.balance("nobody"), None);
}

#[test]
fn send_from_unknown_account_changes_nothing() {
    let mut accounts = Accounts::new();
    accounts.deposit("client_2", 5).expect("deposit failed");
    let previous_accounts = accounts.clone();
    let sut = accounts.send("client_1", "client_2", 1);
    assert_eq!(
        Err(AccountingError::AccountNotFound("client_1".to_string())),
        sut
    );
    assert_eq!(previous_accounts, accounts);
}

#[test]
fn send_with_insufficient_funds_changes_nothing() {
    let mut accounts = Accounts::new();
    accounts.deposit("client_1", 10).expect("deposit failed");
    let previous_accounts = accounts.clone();
    let sut = accounts.send("client_1", "client_2", 11);
    assert_eq!(
        Err(AccountingError::AccountUnderFunded("client_1".to_string(), 11)),
        sut
    );
    assert_eq!(previous_accounts, accounts);
}

#[test]
fn send_that_overflows_recipient_keeps_the_withdrawal() {
    let mut accounts = Accounts::new();
    accounts.deposit("client_1", 10).expect("deposit failed");
    accounts.deposit("client_2", u64::MAX).expect("deposit failed");
    let sut = accounts.send("client_1", "client_2", 10);
    assert_eq!(
        Err(AccountingError::AccountOverFunded("client_2".to_string(), 10)),
        sut
    );
    assert_eq!(accounts.balance("client_1"), Some(0));
    assert_eq!(accounts.balance("client_2"), Some(u64::MAX));
}

#[test]
fn withdrawing_everything_leaves_a_zero_balance() {
    let mut accounts = Accounts::default();
    accounts.deposit("client_1", 7).expect("deposit failed");
    accounts.withdraw("client_1", 7).expect("withdraw failed");
    assert_eq!(accounts.balance("client_1"), Some(0));
}
