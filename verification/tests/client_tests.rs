use payments_engine::amount::Amount;
use payments_engine::engine::Client;
use payments_engine::engine::TransactionKindCsv;
use payments_engine::types::LedgerError;

#[test]
fn it_processes_chargeback_transaction() -> Result<(), LedgerError> {
    let mut client = Client::default();

    let client_before = client.clone();
    client.process_transaction(1, TransactionKindCsv::ChargeBack, None)?;
    assert_eq!(client, client_before);

    client.process_transaction(1, TransactionKindCsv::ChargeBack, None)?;
    assert_eq!(client, client_before);

    client.process_transaction(1, TransactionKindCsv::Deposit, Some("10"))?;
    client.process_transaction(1, TransactionKindCsv::ChargeBack, None)?;
    assert_eq!(client.available(), Amount(10_0000));
    assert_eq!(client.held(), Amount(0));
    assert!(!client.is_disputed(1));
    assert_eq!(client.deposit_amount(1), Some(Amount(10_0000)));

    client.process_transaction(1, TransactionKindCsv::Dispute, None)?;
    client.process_transaction(1, TransactionKindCsv::ChargeBack, None)?;
    assert_eq!(client.available(), Amount(0));
    assert_eq!(client.held(), Amount(0));
    assert!(!client.is_disputed(1));
    assert_eq!(client.deposit_amount(1), Some(Amount(0)));
    assert!(client.is_frozen());

    Ok(())
}

#[test]
fn it_processes_disputed_transaction() -> Result<(), LedgerError> {
    let mut client = Client::default();

    let client_before = client.clone();
    client.process_transaction(1, TransactionKindCsv::ChargeBack, None)?;
    client.process_transaction(1, TransactionKindCsv::Dispute, None)?;
    assert_eq!(client, client_before);

    let mut client = Client::default();
    client.process_transaction(1, TransactionKindCsv::Deposit, Some("1"))?;
    client.process_transaction(1, TransactionKindCsv::Dispute, None)?;
    assert_eq!(client.deposit_amount(1), Some(Amount(1_0000)));
    assert!(client.is_disputed(1));
    assert_eq!(client.available(), Amount(0));
    assert_eq!(client.held(), Amount(1_0000));
    assert!(!client.is_frozen());

    Ok(())
}

#[test]
fn it_processes_resolved_transaction() -> Result<(), LedgerError> {
    let mut client = Client::default();

    client.process_transaction(1, TransactionKindCsv::Resolve, None)?;
    assert_eq!(client.deposits_count(), 0);
    assert_eq!(client.disputes_count(), 0);
    assert_eq!(client.available(), Amount(0));
    assert_eq!(client.held(), Amount(0));
    assert!(!client.is_frozen());

    let mut client = Client::default();
    client.process_transaction(1, TransactionKindCsv::Deposit, Some("1"))?;
    client.process_transaction(1, TransactionKindCsv::Dispute, None)?;
    client.process_transaction(1, TransactionKindCsv::Resolve, None)?;
    assert_eq!(client.available(), Amount(1_0000));
    assert_eq!(client.disputes_count(), 0);
    assert_eq!(client.held(), Amount(0));

    Ok(())
}

#[test]
fn it_processes_withdrawal_transaction() -> Result<(), LedgerError> {
    let mut client = Client::default();

    assert!(client
        .process_transaction(1, TransactionKindCsv::Withdrawal, None)
        .is_err());
    assert!(client
        .process_transaction(1, TransactionKindCsv::Withdrawal, Some("asd"))
        .is_err());

    client.process_transaction(1, TransactionKindCsv::Withdrawal, Some("10.0"))?;
    assert_eq!(client.available(), Amount(0));
    assert_eq!(client.held(), Amount(0));
    assert_eq!(client.deposits_count(), 0);
    assert_eq!(client.disputes_count(), 0);

    client.process_transaction(2, TransactionKindCsv::Deposit, Some("2"))?;
    client.process_transaction(2, TransactionKindCsv::Withdrawal, Some("0.300"))?;
    assert_eq!(client.available(), Amount(1_7000));
    client.process_transaction(3, TransactionKindCsv::Withdrawal, Some("10"))?;
    assert_eq!(client.available(), Amount(1_7000));

    Ok(())
}

#[test]
fn it_processes_deposit_transaction() -> Result<(), LedgerError> {
    let mut client = Client::default();

    assert!(client
        .process_transaction(1, TransactionKindCsv::Deposit, None)
        .is_err());
    assert!(client
        .process_transaction(1, TransactionKindCsv::Deposit, Some("asd"))
        .is_err());

    client.process_transaction(1, TransactionKindCsv::Deposit, Some("10.0"))?;
    assert_eq!(client.deposits_count(), 1);
    assert_eq!(client.deposit_amount(1), Some(Amount(10_0000)));
    assert_eq!(client.available(), Amount(10_0000));
    assert_eq!(client.held(), Amount(0));
    assert_eq!(client.disputes_count(), 0);

    client.process_transaction(2, TransactionKindCsv::Deposit, Some("0.300"))?;
    assert_eq!(client.deposits_count(), 2);
    assert_eq!(client.deposit_amount(1), Some(Amount(10_0000)));
    assert_eq!(client.deposit_amount(2), Some(Amount(0_3000)));
    assert_eq!(client.available(), Amount(10_3000));
    assert_eq!(client.held(), Amount(0));
    assert_eq!(client.disputes_count(), 0);

    client.process_transaction(
        2, // duplicate id
        TransactionKindCsv::Deposit,
        Some("0.300"),
    )?;
    assert_eq!(client.deposits_count(), 2);
    assert_eq!(client.deposit_amount(1), Some(Amount(10_0000)));
    assert_eq!(client.deposit_amount(2), Some(Amount(0_3000)));
    assert_eq!(client.available(), Amount(10_3000));
    assert_eq!(client.held(), Amount(0));
    assert_eq!(client.disputes_count(), 0);

    Ok(())
}

#[test]
fn it_serializes_client_as_empty_csv_row() -> Result<(), LedgerError> {
    assert_eq!(
        Client::default().into_csv_row(1)?,
        "1,0.0000,0.0000,0.0000,false\n"
    );

    Ok(())
}

#[test]
fn it_can_end_up_even() -> Result<(), LedgerError> {
    let mut client = Client::default();

    client.process_transaction(1, TransactionKindCsv::Deposit, Some("1"))?;
    client.process_transaction(2, TransactionKindCsv::Withdrawal, Some("1"))?;

    assert_eq!(client.into_csv_row(1)?, "1,0.0000,0.0000,0.0000,false\n");

    Ok(())
}

#[test]
fn it_marks_funds_as_held_if_disputed() -> Result<(), LedgerError> {
    let mut client = Client::default();

    client.process_transaction(1, TransactionKindCsv::Deposit, Some("1"))?;
    client.process_transaction(2, TransactionKindCsv::Deposit, Some("3"))?;
    client.process_transaction(1, TransactionKindCsv::Dispute, None)?;

    assert_eq!(client.into_csv_row(1)?, "1,3.0000,1.0000,4.0000,false\n");

    Ok(())
}

#[test]
fn it_freezes_client_if_charged_back() -> Result<(), LedgerError> {
    let mut client = Client::default();

    client.process_transaction(1, TransactionKindCsv::Deposit, Some("1"))?;
    client.process_transaction(2, TransactionKindCsv::Deposit, Some("3"))?;
    client.process_transaction(1, TransactionKindCsv::Dispute, None)?;
    client.process_transaction(1, TransactionKindCsv::ChargeBack, None)?;

    assert_eq!(client.into_csv_row(1)?, "1,3.0000,0.0000,3.0000,true\n");

    Ok(())
}

#[test]
fn it_doesnt_mark_client_as_frozen_if_no_chargeback_on_valid_deposit() -> Result<(), LedgerError> {
    let mut client = Client::default();
    client.process_transaction(1, TransactionKindCsv::Deposit, Some("2.0"))?;
    client.process_transaction(1, TransactionKindCsv::Withdrawal, Some("1.0"))?;
    assert_eq!(
        client.clone().into_csv_row(1).unwrap(),
        "1,1.0000,0.0000,1.0000,false\n"
    );

    client.process_transaction(
        2, // this deposit doesn't exist
        TransactionKindCsv::ChargeBack,
        None,
    )?;
    assert_eq!(
        client.clone().into_csv_row(1).unwrap(),
        "1,1.0000,0.0000,1.0000,false\n"
    );

    client.process_transaction(3, TransactionKindCsv::Withdrawal, Some("0.0"))?;
    client.process_transaction(
        3, // doesn't work on withdrawal
        TransactionKindCsv::ChargeBack,
        None,
    )?;
    assert_eq!(
        client.clone().into_csv_row(1).unwrap(),
        "1,1.0000,0.0000,1.0000,false\n"
    );

    Ok(())
}

#[test]
fn dispute_then_resolve_restores_the_balances() -> Result<(), LedgerError> {
    let mut client = Client::default();
    client.process_transaction(1, TransactionKindCsv::Deposit, Some("5"))?;
    client.process_transaction(2, TransactionKindCsv::Deposit, Some("2.5"))?;
    client.process_transaction(3, TransactionKindCsv::Withdrawal, Some("1"))?;

    let before = client.clone();
    client.process_transaction(2, TransactionKindCsv::Dispute, None)?;
    assert_eq!(client.held(), Amount(2_5000));
    client.process_transaction(2, TransactionKindCsv::Resolve, None)?;
    assert_eq!(client, before);

    Ok(())
}

#[test]
fn chargeback_twice_equals_chargeback_once() -> Result<(), LedgerError> {
    let mut client = Client::default();
    client.process_transaction(1, TransactionKindCsv::Deposit, Some("4"))?;
    client.process_transaction(1, TransactionKindCsv::Dispute, None)?;
    client.process_transaction(1, TransactionKindCsv::ChargeBack, None)?;

    let after_once = client.clone();
    assert!(client.is_frozen());
    client.process_transaction(1, TransactionKindCsv::ChargeBack, None)?;
    assert_eq!(client, after_once);

    Ok(())
}

#[test]
fn dispute_reports_underflow_when_funds_were_withdrawn() -> Result<(), LedgerError> {
    let mut client = Client::default();
    client.process_transaction(1, TransactionKindCsv::Deposit, Some("5"))?;
    client.process_transaction(2, TransactionKindCsv::Withdrawal, Some("3"))?;

    let before = client.clone();
    assert_eq!(
        client.process_transaction(1, TransactionKindCsv::Dispute, None),
        Err(LedgerError::Underflow)
    );
    assert_eq!(client, before);

    Ok(())
}

#[test]
fn deposit_reports_overflow_when_the_balance_cannot_hold_it() -> Result<(), LedgerError> {
    let mut client = Client::default();
    client.process_transaction(1, TransactionKindCsv::Deposit, Some("1844674407370955.1615"))?;

    let before = client.clone();
    assert_eq!(
        client.process_transaction(2, TransactionKindCsv::Deposit, Some("0.0001")),
        Err(LedgerError::Overflow)
    );
    assert_eq!(client, before);

    Ok(())
}

#[test]
fn missing_amount_is_reported_for_both_kinds() {
    let mut client = Client::default();
    assert_eq!(
        client.process_transaction(1, TransactionKindCsv::Deposit, None),
        Err(LedgerError::MissingAmount)
    );
    assert_eq!(
        client.process_transaction(1, TransactionKindCsv::Withdrawal, None),
        Err(LedgerError::MissingAmount)
    );
}

#[test]
fn frozen_client_ignores_deposits_and_withdrawals() -> Result<(), LedgerError> {
    let mut client = Client::default();
    client.process_transaction(1, TransactionKindCsv::Deposit, Some("2"))?;
    client.process_transaction(1, TransactionKindCsv::Dispute, None)?;
    client.process_transaction(1, TransactionKindCsv::ChargeBack, None)?;
    assert!(client.is_frozen());

    let frozen = client.clone();
    client.process_transaction(2, TransactionKindCsv::Deposit, Some("1"))?;
    assert_eq!(client, frozen);
    client.process_transaction(3, TransactionKindCsv::Withdrawal, Some("1"))?;
    assert_eq!(client, frozen);

    Ok(())
}

#[test]
fn charged_back_deposit_cannot_be_disputed_again() -> Result<(), LedgerError> {
    let mut client = Client::default();
    client.process_transaction(1, TransactionKindCsv::Deposit, Some("2"))?;
    client.process_transaction(1, TransactionKindCsv::Dispute, None)?;
    client.process_transaction(1, TransactionKindCsv::ChargeBack, None)?;

    let tombstoned = client.clone();
    client.process_transaction(1, TransactionKindCsv::Dispute, None)?;
    assert_eq!(client, tombstoned);
    assert_eq!(client.deposit_amount(1), Some(Amount(0)));

    Ok(())
}
