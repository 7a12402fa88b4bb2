use payments_engine::engine::{write_clients, Client, Router, TransactionKindCsv};
use payments_engine::types::LedgerError;

#[test]
fn it_writes_empty_clients_to_buffer() -> Result<(), LedgerError> {
    let csv = write_clients(Vec::new())?;

    assert_eq!(csv, "client,available,held,total,locked\n");

    Ok(())
}

#[test]
fn it_writes_clients_to_buffer() -> Result<(), LedgerError> {
    let mut client1 = Client::default();
    client1.process_transaction(1, TransactionKindCsv::Deposit, Some("1"))?;
    client1.process_transaction(2, TransactionKindCsv::Withdrawal, Some("1"))?;
    client1.process_transaction(3, TransactionKindCsv::Deposit, Some("1"))?;
    client1.process_transaction(3, TransactionKindCsv::Dispute, None)?;
    client1.process_transaction(3, TransactionKindCsv::Dispute, None)?;
    client1.process_transaction(3, TransactionKindCsv::Resolve, None)?;

    let mut client2 = Client::default();
    client2.process_transaction(5, TransactionKindCsv::Deposit, Some("1"))?;
    client2.process_transaction(6, TransactionKindCsv::Deposit, Some("1"))?;
    client2.process_transaction(7, TransactionKindCsv::Withdrawal, Some("1"))?;
    client2.process_transaction(5, TransactionKindCsv::ChargeBack, None)?;
    client2.process_transaction(1, TransactionKindCsv::ChargeBack, None)?;
    client2.process_transaction(8, TransactionKindCsv::Deposit, Some("1"))?;
    client2.process_transaction(8, TransactionKindCsv::Dispute, None)?;
    client2.process_transaction(9, TransactionKindCsv::Deposit, Some("1"))?;
    client2.process_transaction(9, TransactionKindCsv::Dispute, None)?;
    client2.process_transaction(9, TransactionKindCsv::ChargeBack, None)?;

    let csv = write_clients(vec![(1, client1), (2, client2), (3, Client::default())])?;

    let lines: Vec<&str> = csv.lines().collect();
    println!("{:#?}", lines);
    assert_eq!(lines.len(), 4);
    assert_eq!(lines[0], "client,available,held,total,locked");
    assert!(lines.contains(&"1,1.0000,0.0000,1.0000,false"));
    assert!(lines.contains(&"2,1.0000,1.0000,2.0000,true"));
    assert!(lines.contains(&"3,0.0000,0.0000,0.0000,false"));

    Ok(())
}

/// Renders the single client the router holds after a scenario.
fn single_row(router: Router) -> Result<String, LedgerError> {
    let mut clients = router.snapshot();
    assert_eq!(clients.len(), 1);
    let (id, client) = clients.remove(0);
    client.into_csv_row(id)
}

#[test]
fn router_holds_disputed_funds() -> Result<(), LedgerError> {
    let mut router = Router::new();
    router.apply(1, 1, TransactionKindCsv::Deposit, Some("1"))?;
    router.apply(1, 2, TransactionKindCsv::Deposit, Some("3"))?;
    router.apply(1, 1, TransactionKindCsv::Dispute, None)?;

    assert_eq!(single_row(router)?, "1,3.0000,1.0000,4.0000,false\n");

    Ok(())
}

#[test]
fn router_freezes_client_on_chargeback() -> Result<(), LedgerError> {
    let mut router = Router::new();
    router.apply(1, 1, TransactionKindCsv::Deposit, Some("1"))?;
    router.apply(1, 2, TransactionKindCsv::Deposit, Some("3"))?;
    router.apply(1, 1, TransactionKindCsv::Dispute, None)?;
    router.apply(1, 1, TransactionKindCsv::ChargeBack, None)?;

    assert_eq!(single_row(router)?, "1,3.0000,0.0000,3.0000,true\n");

    Ok(())
}

#[test]
fn router_can_end_up_even() -> Result<(), LedgerError> {
    let mut router = Router::new();
    router.apply(1, 1, TransactionKindCsv::Deposit, Some("1"))?;
    router.apply(1, 2, TransactionKindCsv::Withdrawal, Some("1"))?;

    assert_eq!(single_row(router)?, "1,0.0000,0.0000,0.0000,false\n");

    Ok(())
}

#[test]
fn router_ignores_withdrawal_from_empty_ledger() -> Result<(), LedgerError> {
    let mut router = Router::new();
    router.apply(1, 1, TransactionKindCsv::Withdrawal, Some("10"))?;

    assert_eq!(single_row(router)?, "1,0.0000,0.0000,0.0000,false\n");

    Ok(())
}

#[test]
fn router_keeps_clients_apart() -> Result<(), LedgerError> {
    let mut router = Router::new();
    router.apply(1, 1, TransactionKindCsv::Deposit, Some("2.0"))?;
    router.apply(2, 2, TransactionKindCsv::Deposit, Some("6.0"))?;
    router.apply(1, 1, TransactionKindCsv::Dispute, None)?;

    let clients = router.snapshot();
    assert_eq!(clients.len(), 2);
    let csv = write_clients(clients)?;
    let lines: Vec<&str> = csv.lines().collect();
    assert!(lines.contains(&"1,0.0000,2.0000,2.0000,false"));
    assert!(lines.contains(&"2,6.0000,0.0000,6.0000,false"));

    Ok(())
}

#[test]
fn router_reports_errors_from_the_ledger() {
    let mut router = Router::new();
    assert_eq!(
        router.apply(1, 1, TransactionKindCsv::Deposit, None),
        Err(LedgerError::MissingAmount)
    );
    assert_eq!(
        router.apply(1, 1, TransactionKindCsv::Deposit, Some("abc")),
        Err(LedgerError::MalformedAmount)
    );
}
