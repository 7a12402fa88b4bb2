//! The per-client ledger: a state machine over deposits, withdrawals and the
//! dispute workflow.
//!
//! The whole behaviour is captured by the specification function [`step`]:
//! it maps a ledger state and one event to the next state, or to the fatal
//! error that aborts processing.  The executable [`Client`] is verified to
//! follow `step` exactly, and to leave its state untouched whenever an event
//! fails.

use vstd::prelude::*;

use super::TransactionKindCsv;
use crate::amount::Amount;
use crate::decimal::{amount_text, dec_digits, dec_string, parses, text_value};
use crate::types::{ClientId, LedgerError, TxId};
use vstd::string::StringExecFns;

verus! {

broadcast use vstd::seq_lib::seq_to_set_is_finite;

/// The mathematical state of one client's ledger.
pub ghost struct ClientState {
    /// Set by a chargeback; deposits and withdrawals are ignored from then on.
    pub frozen: bool,
    /// Funds the client may withdraw, scaled by 10,000.
    pub available: u64,
    /// Funds locked behind active disputes, scaled by 10,000.
    pub held: u64,
    /// Every accepted deposit by transaction id; a charged-back deposit
    /// stays, with its amount replaced by zero as a tombstone.
    pub deposits: Map<TxId, u64>,
    /// The deposits currently under dispute.
    pub disputes: Set<TxId>,
}

/// The state of a ledger that has seen no event yet.
pub open spec fn initial_client() -> ClientState {
    ClientState {
        frozen: false,
        available: 0,
        held: 0,
        deposits: Map::empty(),
        disputes: Set::empty(),
    }
}

/// The sum of the deposit amounts of a finite set of transaction ids.
pub open spec fn held_sum(disputes: Set<TxId>, deposits: Map<TxId, u64>) -> int
    decreases disputes.len(),
{
    if disputes.finite() && disputes.len() > 0 {
        let t = disputes.choose();
        deposits[t] + held_sum(disputes.remove(t), deposits)
    } else {
        0
    }
}

/// The invariant of every reachable ledger state: disputed ids refer to
/// known, not charged-back, deposits, and the held funds are exactly the sum
/// of the disputed amounts.
pub open spec fn wf_state(m: ClientState) -> bool {
    &&& m.disputes.finite()
    &&& (forall|t: TxId|
        #[trigger] m.disputes.contains(t) ==> m.deposits.contains_key(t) && m.deposits[t] != 0)
    &&& m.held == held_sum(m.disputes, m.deposits)
}

/// A chargeback of a disputed deposit removes its amount from the held funds
/// for good, tombstones the deposit, and freezes the account; anything else
/// is ignored.
pub open spec fn step_chargeback(pre: ClientState, id: TxId) -> Result<ClientState, LedgerError> {
    if pre.disputes.contains(id) {
        let amt = pre.deposits[id];
        if pre.held >= amt {
            Ok(
                ClientState {
                    frozen: true,
                    held: (pre.held - amt) as u64,
                    deposits: pre.deposits.insert(id, 0),
                    disputes: pre.disputes.remove(id),
                    ..pre
                },
            )
        } else {
            Err(LedgerError::Underflow)
        }
    } else {
        Ok(pre)
    }
}

/// A dispute of a known, not yet disputed, not charged-back deposit moves
/// its amount from available into held funds; anything else is ignored.
pub open spec fn step_dispute(pre: ClientState, id: TxId) -> Result<ClientState, LedgerError> {
    if pre.deposits.contains_key(id) && pre.deposits[id] != 0 && !pre.disputes.contains(id) {
        let amt = pre.deposits[id];
        if pre.held + amt > u64::MAX {
            Err(LedgerError::Overflow)
        } else if pre.available < amt {
            Err(LedgerError::Underflow)
        } else {
            Ok(
                ClientState {
                    available: (pre.available - amt) as u64,
                    held: (pre.held + amt) as u64,
                    disputes: pre.disputes.insert(id),
                    ..pre
                },
            )
        }
    } else {
        Ok(pre)
    }
}

/// A resolve of a disputed deposit moves its amount back from held into
/// available funds; anything else is ignored.
pub open spec fn step_resolve(pre: ClientState, id: TxId) -> Result<ClientState, LedgerError> {
    if pre.disputes.contains(id) {
        let amt = pre.deposits[id];
        if pre.available + amt > u64::MAX {
            Err(LedgerError::Overflow)
        } else if pre.held < amt {
            Err(LedgerError::Underflow)
        } else {
            Ok(
                ClientState {
                    available: (pre.available + amt) as u64,
                    held: (pre.held - amt) as u64,
                    disputes: pre.disputes.remove(id),
                    ..pre
                },
            )
        }
    } else {
        Ok(pre)
    }
}

/// A withdrawal takes its amount from the available funds when they suffice;
/// with insufficient funds, or on a frozen account, it is ignored.  The
/// amount is mandatory and must parse.
pub open spec fn step_withdrawal(pre: ClientState, amount: Option<Seq<char>>) -> Result<
    ClientState,
    LedgerError,
> {
    if pre.frozen {
        Ok(pre)
    } else {
        match amount {
            None => Err(LedgerError::MissingAmount),
            Some(s) => if !parses(s) {
                Err(LedgerError::MalformedAmount)
            } else {
                let amt = text_value(s);
                if pre.available >= amt {
                    Ok(ClientState { available: (pre.available - amt) as u64, ..pre })
                } else {
                    Ok(pre)
                }
            },
        }
    }
}

/// A deposit with a fresh transaction id adds its amount to the available
/// funds and is remembered for later disputes; on a frozen account, or with
/// an already known id, it is ignored.  The amount is mandatory and must
/// parse.
pub open spec fn step_deposit(pre: ClientState, id: TxId, amount: Option<Seq<char>>) -> Result<
    ClientState,
    LedgerError,
> {
    if pre.frozen {
        Ok(pre)
    } else if pre.deposits.contains_key(id) {
        Ok(pre)
    } else {
        match amount {
            None => Err(LedgerError::MissingAmount),
            Some(s) => if !parses(s) {
                Err(LedgerError::MalformedAmount)
            } else {
                let amt = text_value(s);
                if pre.available + amt > u64::MAX {
                    Err(LedgerError::Overflow)
                } else {
                    Ok(
                        ClientState {
                            available: (pre.available + amt) as u64,
                            deposits: pre.deposits.insert(id, amt as u64),
                            ..pre
                        },
                    )
                }
            },
        }
    }
}

/// One transition of the ledger state machine: the state after the event,
/// or the fatal error that aborts processing.  Ignored events leave the
/// state as it is and are not errors.
pub open spec fn step(
    pre: ClientState,
    id: TxId,
    kind: TransactionKindCsv,
    amount: Option<Seq<char>>,
) -> Result<ClientState, LedgerError> {
    match kind {
        TransactionKindCsv::ChargeBack => step_chargeback(pre, id),
        TransactionKindCsv::Dispute => step_dispute(pre, id),
        TransactionKindCsv::Resolve => step_resolve(pre, id),
        TransactionKindCsv::Withdrawal => step_withdrawal(pre, amount),
        TransactionKindCsv::Deposit => step_deposit(pre, id, amount),
    }
}

/// The text of a boolean, as the frozen flag is rendered.
pub open spec fn bool_text(b: bool) -> Seq<char> {
    if b {
        seq!['t', 'r', 'u', 'e']
    } else {
        seq!['f', 'a', 'l', 's', 'e']
    }
}

/// One output row: client id, available, held, total and the frozen flag,
/// comma-separated and newline-terminated, every amount with exactly four
/// fractional digits.
pub open spec fn row_text(id: ClientId, m: ClientState) -> Seq<char> {
    dec_digits(id as nat) + seq![','] + amount_text(m.available) + seq![','] + amount_text(m.held)
        + seq![','] + amount_text((m.available + m.held) as u64) + seq![','] + bool_text(m.frozen)
        + seq!['\n']
}

/// The view of an optional amount argument.
pub open spec fn amount_chars(amount: Option<&str>) -> Option<Seq<char>> {
    match amount {
        Some(s) => Some(s@),
        None => None,
    }
}

proof fn lemma_held_sum_pick(s: Set<TxId>, m: Map<TxId, u64>, u: TxId)
    requires
        s.finite(),
        s.contains(u),
    ensures
        held_sum(s, m) == m[u] + held_sum(s.remove(u), m),
    decreases s.len(),
{
    let c = s.choose();
    if c != u {
        lemma_held_sum_pick(s.remove(c), m, u);
        lemma_held_sum_pick(s.remove(u), m, c);
        assert(s.remove(c).remove(u) =~= s.remove(u).remove(c));
    }
}

proof fn lemma_held_sum_insert(s: Set<TxId>, m: Map<TxId, u64>, t: TxId)
    requires
        s.finite(),
        !s.contains(t),
    ensures
        held_sum(s.insert(t), m) == held_sum(s, m) + m[t],
{
    lemma_held_sum_pick(s.insert(t), m, t);
    assert(s.insert(t).remove(t) =~= s);
}

proof fn lemma_held_sum_remove(s: Set<TxId>, m: Map<TxId, u64>, t: TxId)
    requires
        s.finite(),
        s.contains(t),
    ensures
        held_sum(s.remove(t), m) == held_sum(s, m) - m[t],
{
    lemma_held_sum_pick(s, m, t);
}

proof fn lemma_held_sum_nonneg(s: Set<TxId>, m: Map<TxId, u64>)
    requires
        s.finite(),
    ensures
        held_sum(s, m) >= 0,
    decreases s.len(),
{
    if s.len() > 0 {
        lemma_held_sum_nonneg(s.remove(s.choose()), m);
    }
}

proof fn lemma_held_sum_agree(s: Set<TxId>, m1: Map<TxId, u64>, m2: Map<TxId, u64>)
    requires
        s.finite(),
        forall|t: TxId| #[trigger] s.contains(t) ==> m1[t] == m2[t],
    ensures
        held_sum(s, m1) == held_sum(s, m2),
    decreases s.len(),
{
    if s.len() > 0 {
        lemma_held_sum_agree(s.remove(s.choose()), m1, m2);
    }
}

/// In a well-formed state the held funds cover every single disputed amount.
proof fn lemma_held_covers(m: ClientState, t: TxId)
    requires
        wf_state(m),
        m.disputes.contains(t),
    ensures
        m.held >= m.deposits[t],
{
    lemma_held_sum_remove(m.disputes, m.deposits, t);
    lemma_held_sum_nonneg(m.disputes.remove(t), m.deposits);
}

/// A dispute followed at once by a resolve of the same transaction restores
/// the whole state, the balances in particular, exactly; this holds whenever
/// the transaction was not already under dispute and the dispute itself did
/// not abort on an arithmetic error.
pub proof fn lemma_dispute_resolve_round_trip(m: ClientState, id: TxId)
    requires
        !m.disputes.contains(id),
        step_dispute(m, id) is Ok,
    ensures
        step_resolve(step_dispute(m, id)->Ok_0, id) == Ok::<ClientState, LedgerError>(m),
{
    if m.deposits.contains_key(id) && m.deposits[id] != 0 {
        let m1 = step_dispute(m, id)->Ok_0;
        assert(m1.disputes.remove(id) =~= m.disputes);
        assert(step_resolve(m1, id)->Ok_0 == m);
    }
}

/// On a well-formed state a chargeback never aborts: where the transaction
/// is under dispute it freezes the ledger, everywhere else it does nothing.
/// It is idempotent: a second chargeback of the same transaction in a row
/// leaves the state exactly as it was after the first.
pub proof fn lemma_chargeback_freezes_idempotent(m: ClientState, id: TxId)
    requires
        wf_state(m),
    ensures
        step_chargeback(m, id) is Ok,
        m.disputes.contains(id) ==> step_chargeback(m, id)->Ok_0.frozen,
        step_chargeback(step_chargeback(m, id)->Ok_0, id) == Ok::<ClientState, LedgerError>(
            step_chargeback(m, id)->Ok_0,
        ),
{
    if m.disputes.contains(id) {
        lemma_held_covers(m, id);
        let m1 = step_chargeback(m, id)->Ok_0;
        assert(!m1.disputes.contains(id));
    }
}

/// The deposits of the ledger as a map, last entry winning; with unique
/// transaction ids the order cannot matter.
spec fn deposits_map(s: Seq<(TxId, Amount)>) -> Map<TxId, u64>
    decreases s.len(),
{
    if s.len() == 0 {
        Map::empty()
    } else {
        deposits_map(s.drop_last()).insert(s.last().0, s.last().1.0)
    }
}

proof fn lemma_deposits_map_props(s: Seq<(TxId, Amount)>)
    ensures
        forall|k: TxId|
            #[trigger] deposits_map(s).contains_key(k) ==> exists|i: int|
                0 <= i < s.len() && (#[trigger] s[i]).0 == k,
        forall|i: int|
            0 <= i < s.len() ==> deposits_map(s).contains_key((#[trigger] s[i]).0),
    decreases s.len(),
{
    if s.len() > 0 {
        lemma_deposits_map_props(s.drop_last());
        assert forall|i: int| 0 <= i < s.len() implies deposits_map(s).contains_key(
            (#[trigger] s[i]).0,
        ) by {
            if i < s.len() - 1 {
                assert(s.drop_last()[i] == s[i]);
            }
        }
        assert forall|k: TxId| #[trigger] deposits_map(s).contains_key(k) implies exists|i: int|
            0 <= i < s.len() && (#[trigger] s[i]).0 == k by {
            if k == s.last().0 {
                assert(0 <= s.len() - 1 < s.len() && s[s.len() - 1].0 == k);
            } else {
                assert(deposits_map(s.drop_last()).contains_key(k));
                let i = choose|i: int|
                    0 <= i < s.drop_last().len() && (#[trigger] s.drop_last()[i]).0 == k;
                assert(s[i] == s.drop_last()[i]);
                assert(0 <= i < s.len() && s[i].0 == k);
            }
        }
    }
}

proof fn lemma_deposits_map_value(s: Seq<(TxId, Amount)>, i: int)
    requires
        forall|i1: int, j1: int|
            0 <= i1 < j1 < s.len() ==> (#[trigger] s[i1]).0 != (#[trigger] s[j1]).0,
        0 <= i < s.len(),
    ensures
        deposits_map(s).contains_key(s[i].0),
        deposits_map(s)[s[i].0] == s[i].1.0,
    decreases s.len(),
{
    if i == s.len() - 1 {
        lemma_deposits_map_props(s);
    } else {
        assert(s.drop_last()[i] == s[i]);
        lemma_deposits_map_value(s.drop_last(), i);
        assert(s[i].0 != s.last().0);
    }
}

proof fn lemma_deposits_map_dom_len(s: Seq<(TxId, Amount)>)
    requires
        forall|i1: int, j1: int|
            0 <= i1 < j1 < s.len() ==> (#[trigger] s[i1]).0 != (#[trigger] s[j1]).0,
    ensures
        deposits_map(s).dom().finite(),
        deposits_map(s).dom().len() == s.len(),
    decreases s.len(),
{
    if s.len() > 0 {
        lemma_deposits_map_dom_len(s.drop_last());
        lemma_deposits_map_props(s.drop_last());
        let k = s.last().0;
        assert(!deposits_map(s.drop_last()).contains_key(k)) by {
            if deposits_map(s.drop_last()).contains_key(k) {
                let i = choose|i: int|
                    0 <= i < s.drop_last().len() && (#[trigger] s.drop_last()[i]).0 == k;
                assert(s[i] == s.drop_last()[i]);
                assert(s[i].0 != s[s.len() - 1].0);
            }
        }
        assert(deposits_map(s).dom() =~= deposits_map(s.drop_last()).dom().insert(k));
    } else {
        assert(deposits_map(s).dom() =~= Set::<TxId>::empty());
    }
}

proof fn lemma_deposits_map_push(s: Seq<(TxId, Amount)>, k: TxId, v: Amount)
    ensures
        deposits_map(s.push((k, v))) == deposits_map(s).insert(k, v.0),
{
    assert(s.push((k, v)).drop_last() =~= s);
}

proof fn lemma_deposits_map_update(s: Seq<(TxId, Amount)>, i: int, v: Amount)
    requires
        forall|i1: int, j1: int|
            0 <= i1 < j1 < s.len() ==> (#[trigger] s[i1]).0 != (#[trigger] s[j1]).0,
        0 <= i < s.len(),
    ensures
        deposits_map(s.update(i, (s[i].0, v))) == deposits_map(s).insert(s[i].0, v.0),
    decreases s.len(),
{
    let k = s[i].0;
    let t = s.update(i, (k, v));
    if i == s.len() - 1 {
        assert(t.drop_last() =~= s.drop_last());
        assert(t.last() == (k, v));
        assert(deposits_map(s).insert(k, v.0) =~= deposits_map(s.drop_last()).insert(k, v.0));
    } else {
        assert(s.drop_last()[i] == s[i]);
        assert(t.drop_last() =~= s.drop_last().update(i, (k, v)));
        lemma_deposits_map_update(s.drop_last(), i, v);
        assert(t.last() == s.last());
        assert(k != s.last().0);
        assert(deposits_map(s.drop_last()).insert(k, v.0).insert(s.last().0, s.last().1.0)
            =~= deposits_map(s.drop_last()).insert(s.last().0, s.last().1.0).insert(k, v.0));
    }
}

proof fn lemma_disputes_remove(s: Seq<TxId>, i: int)
    requires
        0 <= i < s.len(),
        forall|i1: int, j1: int| 0 <= i1 < j1 < s.len() ==> s[i1] != s[j1],
    ensures
        s.remove(i).to_set() == s.to_set().remove(s[i]),
        forall|i1: int, j1: int| 0 <= i1 < j1 < s.remove(i).len() ==> s.remove(i)[i1] != s.remove(
            i,
        )[j1],
{
    s.remove_ensures(i);
    let t = s.remove(i);
    assert forall|i1: int, j1: int| 0 <= i1 < j1 < t.len() implies t[i1] != t[j1] by {
        let a1: int = if i1 < i {
            i1
        } else {
            i1 + 1
        };
        let b1: int = if j1 < i {
            j1
        } else {
            j1 + 1
        };
        assert(t[i1] == s[a1]);
        assert(t[j1] == s[b1]);
    }
    assert forall|a: TxId| t.to_set().contains(a) implies s.to_set().contains(a) && a != s[i] by {
        let j = choose|j: int| 0 <= j < t.len() && t[j] == a;
        if j < i {
            assert(s[j] == a);
        } else {
            assert(s[j + 1] == a);
        }
    }
    assert forall|a: TxId| s.to_set().contains(a) && a != s[i] implies t.to_set().contains(a) by {
        let j = choose|j: int| 0 <= j < s.len() && s[j] == a;
        if j < i {
            assert(t[j] == a);
        } else {
            assert(t[j - 1] == a);
        }
    }
    assert(t.to_set() =~= s.to_set().remove(s[i]));
}

/// The executable per-client ledger.
///
/// Its mathematical view is a [`ClientState`]; every method is verified to
/// transform that view as [`step`] prescribes.
#[derive(Debug, Clone, PartialEq)]
pub struct Client {
    is_frozen: bool,
    available: Amount,
    held: Amount,
    deposits: Vec<(TxId, Amount)>,
    disputes: Vec<TxId>,
}

impl View for Client {
    type V = ClientState;

    closed spec fn view(&self) -> ClientState {
        ClientState {
            frozen: self.is_frozen,
            available: self.available.0,
            held: self.held.0,
            deposits: deposits_map(self.deposits@),
            disputes: self.disputes@.to_set(),
        }
    }
}

impl Client {
    /// The representation invariant: unique keys in both collections, and a
    /// well-formed view.
    pub closed spec fn wf(&self) -> bool {
        &&& (forall|i: int, j: int|
            0 <= i < j < self.deposits@.len() ==> (#[trigger] self.deposits@[i]).0 != (
            #[trigger] self.deposits@[j]).0)
        &&& (forall|i: int, j: int|
            0 <= i < j < self.disputes@.len() ==> self.disputes@[i] != self.disputes@[j])
        &&& wf_state(self@)
    }

    /// A fresh ledger with zero balances.
    pub fn new() -> (r: Client)
        ensures
            r@ == initial_client(),
            r.wf(),
    {
        let r = Client {
            is_frozen: false,
            available: Amount(0),
            held: Amount(0),
            deposits: Vec::new(),
            disputes: Vec::new(),
        };
        proof {
            assert(deposits_map(r.deposits@) =~= Map::<TxId, u64>::empty());
            assert(r.disputes@.to_set() =~= Set::<TxId>::empty());
            assert(r@ == initial_client());
        }
        r
    }

    /// Finds the position of a deposit by its transaction id.
    fn find_deposit(&self, id: TxId) -> (r: Option<usize>)
        requires
            self.wf(),
        ensures
            match r {
                Some(i) => i < self.deposits@.len() && self.deposits@[i as int].0 == id
                    && self@.deposits.contains_key(id) && self@.deposits[id]
                    == self.deposits@[i as int].1.0,
                None => !self@.deposits.contains_key(id),
            },
    {
        let n = self.deposits.len();
        let mut i: usize = 0;
        while i < n
            invariant
                i <= n == self.deposits@.len(),
                forall|j: int| 0 <= j < i ==> (#[trigger] self.deposits@[j]).0 != id,
                self.wf(),
            decreases n - i,
        {
            if self.deposits[i].0 == id {
                proof {
                    lemma_deposits_map_value(self.deposits@, i as int);
                }
                return Some(i);
            }
            i += 1;
        }
        proof {
            lemma_deposits_map_props(self.deposits@);
        }
        None
    }

    /// Finds the position of a transaction id among the active disputes.
    fn find_dispute(&self, id: TxId) -> (r: Option<usize>)
        ensures
            match r {
                Some(i) => i < self.disputes@.len() && self.disputes@[i as int] == id
                    && self@.disputes.contains(id),
                None => !self@.disputes.contains(id),
            },
    {
        let n = self.disputes.len();
        let mut i: usize = 0;
        while i < n
            invariant
                i <= n == self.disputes@.len(),
                forall|j: int| 0 <= j < i ==> self.disputes@[j] != id,
            decreases n - i,
        {
            if self.disputes[i] == id {
                return Some(i);
            }
            i += 1;
        }
        None
    }

    /// Applies one event to the ledger, exactly as [`step`] prescribes: the
    /// view moves to `step`'s state on success, and stays untouched when the
    /// event fails.
    pub fn process_transaction(
        &mut self,
        id: TxId,
        kind: TransactionKindCsv,
        amount: Option<&str>,
    ) -> (r: Result<(), LedgerError>)
        requires
            old(self).wf(),
        ensures
            final(self).wf(),
            match step(old(self)@, id, kind, amount_chars(amount)) {
                Ok(m) => r is Ok && final(self)@ == m,
                Err(e) => r == Err::<(), LedgerError>(e) && final(self)@ == old(self)@,
            },
    {
        match kind {
            TransactionKindCsv::ChargeBack => {
                let di = match self.find_dispute(id) {
                    Some(di) => di,
                    None => {
                        return Ok(());
                    },
                };
                let pi = match self.find_deposit(id) {
                    Some(pi) => pi,
                    None => {
                        proof {
                            assert(false);
                        }
                        return Err(LedgerError::Underflow);
                    },
                };
                let amt = self.deposits[pi].1;
                proof {
                    lemma_held_covers(self@, id);
                }
                let h = match self.held.checked_sub(amt) {
                    Ok(h) => h,
                    Err(e) => {
                        proof {
                            assert(false);
                        }
                        return Err(e);
                    },
                };
                self.is_frozen = true;
                self.held = h;
                self.deposits[pi] = (id, Amount(0));
                let _removed = self.disputes.remove(di);
                proof {
                    let pre = old(self)@;
                    lemma_deposits_map_update(old(self).deposits@, pi as int, Amount(0));
                    lemma_disputes_remove(old(self).disputes@, di as int);
                    assert(self@.deposits == pre.deposits.insert(id, 0));
                    assert(self@.disputes == pre.disputes.remove(id));
                    lemma_held_sum_agree(self@.disputes, self@.deposits, pre.deposits);
                    lemma_held_sum_remove(pre.disputes, pre.deposits, id);
                    assert(self@ == step_chargeback(pre, id)->Ok_0);
                }
                Ok(())
            },
            TransactionKindCsv::Dispute => {
                let pi = match self.find_deposit(id) {
                    Some(pi) => pi,
                    None => {
                        return Ok(());
                    },
                };
                let amt = self.deposits[pi].1;
                if amt.0 == 0 {
                    return Ok(());
                }
                match self.find_dispute(id) {
                    Some(_di) => {
                        return Ok(());
                    },
                    None => {},
                };
                let h = match self.held.checked_add(amt) {
                    Ok(h) => h,
                    Err(e) => {
                        return Err(e);
                    },
                };
                let a = match self.available.checked_sub(amt) {
                    Ok(a) => a,
                    Err(e) => {
                        return Err(e);
                    },
                };
                self.held = h;
                self.available = a;
                self.disputes.push(id);
                proof {
                    let pre = old(self)@;
                    old(self).disputes@.lemma_push_to_set_commute(id);
                    assert(self@.disputes == pre.disputes.insert(id));
                    lemma_held_sum_insert(pre.disputes, pre.deposits, id);
                    assert(self@ == step_dispute(pre, id)->Ok_0);
                }
                Ok(())
            },
            TransactionKindCsv::Resolve => {
                let di = match self.find_dispute(id) {
                    Some(di) => di,
                    None => {
                        return Ok(());
                    },
                };
                let pi = match self.find_deposit(id) {
                    Some(pi) => pi,
                    None => {
                        proof {
                            assert(false);
                        }
                        return Err(LedgerError::Underflow);
                    },
                };
                let amt = self.deposits[pi].1;
                let a = match self.available.checked_add(amt) {
                    Ok(a) => a,
                    Err(e) => {
                        return Err(e);
                    },
                };
                proof {
                    lemma_held_covers(self@, id);
                }
                let h = match self.held.checked_sub(amt) {
                    Ok(h) => h,
                    Err(e) => {
                        proof {
                            assert(false);
                        }
                        return Err(e);
                    },
                };
                self.available = a;
                self.held = h;
                let _removed = self.disputes.remove(di);
                proof {
                    let pre = old(self)@;
                    lemma_disputes_remove(old(self).disputes@, di as int);
                    assert(self@.disputes == pre.disputes.remove(id));
                    lemma_held_sum_remove(pre.disputes, pre.deposits, id);
                    assert(self@ == step_resolve(pre, id)->Ok_0);
                }
                Ok(())
            },
            TransactionKindCsv::Withdrawal => {
                if self.is_frozen {
                    return Ok(());
                }
                let txt = match amount {
                    Some(t) => t,
                    None => {
                        return Err(LedgerError::MissingAmount);
                    },
                };
                let amt = match Amount::parse(txt) {
                    Ok(a) => a,
                    Err(e) => {
                        return Err(e);
                    },
                };
                if self.available.0 >= amt.0 {
                    self.available = Amount(self.available.0 - amt.0);
                }
                proof {
                    assert(self@ == step_withdrawal(old(self)@, amount_chars(amount))->Ok_0);
                }
                Ok(())
            },
            TransactionKindCsv::Deposit => {
                if self.is_frozen {
                    return Ok(());
                }
                match self.find_deposit(id) {
                    Some(_pi) => {
                        return Ok(());
                    },
                    None => {},
                };
                let txt = match amount {
                    Some(t) => t,
                    None => {
                        return Err(LedgerError::MissingAmount);
                    },
                };
                let amt = match Amount::parse(txt) {
                    Ok(a) => a,
                    Err(e) => {
                        return Err(e);
                    },
                };
                let a = match self.available.checked_add(amt) {
                    Ok(a) => a,
                    Err(e) => {
                        return Err(e);
                    },
                };
                proof {
                    lemma_deposits_map_props(self.deposits@);
                }
                self.available = a;
                self.deposits.push((id, amt));
                proof {
                    let pre = old(self)@;
                    lemma_deposits_map_push(old(self).deposits@, id, amt);
                    assert(self@.deposits == pre.deposits.insert(id, amt.0));
                    assert(forall|t: TxId|
                        #[trigger] pre.disputes.contains(t) ==> pre.deposits[t]
                            == self@.deposits[t]);
                    lemma_held_sum_agree(pre.disputes, self@.deposits, pre.deposits);
                    assert(self@ == step_deposit(pre, id, amount_chars(amount))->Ok_0);
                }
                Ok(())
            },
        }
    }

    /// A well-formed ledger always has a well-formed view, so the laws
    /// stated over [`ClientState`] apply to every reachable ledger.
    pub proof fn lemma_wf_view(&self)
        requires
            self.wf(),
        ensures
            wf_state(self@),
    {
    }

    /// The funds the client may withdraw.
    pub fn available(&self) -> (r: Amount)
        ensures
            r.0 == self@.available,
    {
        self.available
    }

    /// The funds locked behind active disputes.
    pub fn held(&self) -> (r: Amount)
        ensures
            r.0 == self@.held,
    {
        self.held
    }

    /// Whether a chargeback has frozen this ledger.
    pub fn is_frozen(&self) -> (r: bool)
        ensures
            r == self@.frozen,
    {
        self.is_frozen
    }

    /// The recorded amount of a deposit, zero for a charged-back one.
    pub fn deposit_amount(&self, id: TxId) -> (r: Option<Amount>)
        requires
            self.wf(),
        ensures
            match r {
                Some(a) => self@.deposits.contains_key(id) && a.0 == self@.deposits[id],
                None => !self@.deposits.contains_key(id),
            },
    {
        match self.find_deposit(id) {
            Some(i) => Some(self.deposits[i].1),
            None => None,
        }
    }

    /// Whether a deposit is currently under dispute.
    pub fn is_disputed(&self, id: TxId) -> (r: bool)
        ensures
            r == self@.disputes.contains(id),
    {
        match self.find_dispute(id) {
            Some(_i) => true,
            None => false,
        }
    }

    /// How many deposits the ledger has recorded.
    pub fn deposits_count(&self) -> (r: usize)
        requires
            self.wf(),
        ensures
            r == self@.deposits.dom().len(),
    {
        proof {
            lemma_deposits_map_dom_len(self.deposits@);
        }
        self.deposits.len()
    }

    /// How many disputes are currently open.
    pub fn disputes_count(&self) -> (r: usize)
        requires
            self.wf(),
        ensures
            r == self@.disputes.len(),
    {
        proof {
            self.disputes@.unique_seq_to_set();
        }
        self.disputes.len()
    }

    /// Renders the final snapshot of this ledger as one output row; the
    /// total is the checked sum of available and held funds.
    pub fn into_csv_row(self, id: ClientId) -> (r: Result<String, LedgerError>)
        ensures
            match r {
                Ok(s) => self@.available + self@.held <= u64::MAX && s@ == row_text(id, self@),
                Err(e) => e == LedgerError::Overflow && self@.available + self@.held > u64::MAX,
            },
    {
        let total = match self.available.checked_add(self.held) {
            Ok(t) => t,
            Err(e) => {
                return Err(e);
            },
        };
        let mut s = dec_string(id as u64);
        s.append(",");
        let av = self.available.to_string();
        s.append(av.as_str());
        s.append(",");
        let he = self.held.to_string();
        s.append(he.as_str());
        s.append(",");
        let to = total.to_string();
        s.append(to.as_str());
        s.append(",");
        if self.is_frozen {
            s.append("true");
        } else {
            s.append("false");
        }
        s.append("\n");
        proof {
            reveal_strlit(",");
            reveal_strlit("\n");
            reveal_strlit("true");
            reveal_strlit("false");
            assert(s@ =~= row_text(id, self@));
        }
        Ok(s)
    }
}

impl Default for Client {
    /// A fresh ledger with zero balances.
    fn default() -> (r: Client)
        ensures
            r@ == initial_client(),
            r.wf(),
    {
        Client::new()
    }
}

} // verus!
