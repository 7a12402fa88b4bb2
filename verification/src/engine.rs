//! Folds a stream of transaction events into per-client ledgers and renders
//! the final balances as rows of text.

pub mod client;

use vstd::prelude::*;
use vstd::string::StringExecFns;

use crate::types::{ClientId, LedgerError, TxId};
pub use client::Client;
use client::{amount_chars, initial_client, row_text, step, ClientState};

verus! {

/// The kind of one incoming transaction record.
#[derive(Debug, Copy, Clone, PartialEq, Eq, Structural)]
pub enum TransactionKindCsv {
    /// Closes a dispute against the client: the disputed amount leaves the
    /// held funds for good and the account freezes.
    ChargeBack,
    /// Opens a dispute which moves a prior deposit's amount from available
    /// into held funds.
    Dispute,
    /// Closes a dispute in the client's favour, moving the amount back into
    /// available funds.
    Resolve,
    /// Increases the client's available funds.
    Deposit,
    /// Decreases the client's available funds; never disputed.
    Withdrawal,
}

/// The ledgers of a sequence of client entries as a map, last entry winning;
/// with unique client ids the order cannot matter.
pub open spec fn clients_map(s: Seq<(ClientId, Client)>) -> Map<ClientId, ClientState>
    decreases s.len(),
{
    if s.len() == 0 {
        Map::empty()
    } else {
        clients_map(s.drop_last()).insert(s.last().0, s.last().1@)
    }
}

proof fn lemma_clients_map_props(s: Seq<(ClientId, Client)>)
    ensures
        forall|k: ClientId|
            #[trigger] clients_map(s).contains_key(k) ==> exists|i: int|
                0 <= i < s.len() && (#[trigger] s[i]).0 == k,
        forall|i: int| 0 <= i < s.len() ==> clients_map(s).contains_key((#[trigger] s[i]).0),
    decreases s.len(),
{
    if s.len() > 0 {
        lemma_clients_map_props(s.drop_last());
        assert forall|i: int| 0 <= i < s.len() implies clients_map(s).contains_key(
            (#[trigger] s[i]).0,
        ) by {
            if i < s.len() - 1 {
                assert(s.drop_last()[i] == s[i]);
            }
        }
        assert forall|k: ClientId| #[trigger] clients_map(s).contains_key(k) implies exists|i: int|
            0 <= i < s.len() && (#[trigger] s[i]).0 == k by {
            if k == s.last().0 {
                assert(0 <= s.len() - 1 < s.len() && s[s.len() - 1].0 == k);
            } else {
                assert(clients_map(s.drop_last()).contains_key(k));
                let i = choose|i: int|
                    0 <= i < s.drop_last().len() && (#[trigger] s.drop_last()[i]).0 == k;
                assert(s[i] == s.drop_last()[i]);
                assert(0 <= i < s.len() && s[i].0 == k);
            }
        }
    }
}

proof fn lemma_clients_map_value(s: Seq<(ClientId, Client)>, i: int)
    requires
        forall|i1: int, j1: int|
            0 <= i1 < j1 < s.len() ==> (#[trigger] s[i1]).0 != (#[trigger] s[j1]).0,
        0 <= i < s.len(),
    ensures
        clients_map(s).contains_key(s[i].0),
        clients_map(s)[s[i].0] == s[i].1@,
    decreases s.len(),
{
    if i == s.len() - 1 {
        lemma_clients_map_props(s);
    } else {
        assert(s.drop_last()[i] == s[i]);
        lemma_clients_map_value(s.drop_last(), i);
        assert(s[i].0 != s.last().0);
    }
}

proof fn lemma_clients_map_push(s: Seq<(ClientId, Client)>, k: ClientId, c: Client)
    ensures
        clients_map(s.push((k, c))) == clients_map(s).insert(k, c@),
{
    assert(s.push((k, c)).drop_last() =~= s);
}

proof fn lemma_clients_map_update(s: Seq<(ClientId, Client)>, i: int, c: Client)
    requires
        forall|i1: int, j1: int|
            0 <= i1 < j1 < s.len() ==> (#[trigger] s[i1]).0 != (#[trigger] s[j1]).0,
        0 <= i < s.len(),
    ensures
        clients_map(s.update(i, (s[i].0, c))) == clients_map(s).insert(s[i].0, c@),
    decreases s.len(),
{
    let k = s[i].0;
    let t = s.update(i, (k, c));
    if i == s.len() - 1 {
        assert(t.drop_last() =~= s.drop_last());
        assert(t.last() == (k, c));
        assert(clients_map(s).insert(k, c@) =~= clients_map(s.drop_last()).insert(k, c@));
    } else {
        assert(s.drop_last()[i] == s[i]);
        assert(t.drop_last() =~= s.drop_last().update(i, (k, c)));
        lemma_clients_map_update(s.drop_last(), i, c);
        assert(t.last() == s.last());
        assert(k != s.last().0);
        assert(clients_map(s.drop_last()).insert(k, c@).insert(s.last().0, s.last().1@)
            =~= clients_map(s.drop_last()).insert(s.last().0, s.last().1@).insert(k, c@));
    }
}

/// Owns one ledger per client and routes every event to the ledger of the
/// event's client, creating it on first reference.
pub struct Router {
    clients: Vec<(ClientId, Client)>,
}

impl View for Router {
    type V = Map<ClientId, ClientState>;

    closed spec fn view(&self) -> Map<ClientId, ClientState> {
        clients_map(self.clients@)
    }
}

impl Router {
    /// The representation invariant: unique client ids, each ledger
    /// well-formed.
    pub closed spec fn wf(&self) -> bool {
        &&& (forall|i: int, j: int|
            0 <= i < j < self.clients@.len() ==> (#[trigger] self.clients@[i]).0 != (
            #[trigger] self.clients@[j]).0)
        &&& (forall|i: int| 0 <= i < self.clients@.len() ==> (#[trigger] self.clients@[i]).1.wf())
    }

    /// A router with no ledgers yet.
    pub fn new() -> (r: Router)
        ensures
            r.wf(),
            r@ == Map::<ClientId, ClientState>::empty(),
    {
        let r = Router { clients: Vec::new() };
        proof {
            assert(clients_map(r.clients@) =~= Map::<ClientId, ClientState>::empty());
        }
        r
    }

    fn find_client(&self, id: ClientId) -> (r: Option<usize>)
        requires
            self.wf(),
        ensures
            match r {
                Some(i) => i < self.clients@.len() && self.clients@[i as int].0 == id
                    && self@.contains_key(id) && self@[id] == self.clients@[i as int].1@,
                None => !self@.contains_key(id),
            },
    {
        let n = self.clients.len();
        let mut i: usize = 0;
        while i < n
            invariant
                i <= n == self.clients@.len(),
                forall|j: int| 0 <= j < i ==> (#[trigger] self.clients@[j]).0 != id,
                self.wf(),
            decreases n - i,
        {
            if self.clients[i].0 == id {
                proof {
                    lemma_clients_map_value(self.clients@, i as int);
                }
                return Some(i);
            }
            i += 1;
        }
        proof {
            lemma_clients_map_props(self.clients@);
        }
        None
    }

    /// Routes one event to the ledger of its client, creating that ledger
    /// with zero balances on first reference; the event itself is applied
    /// exactly as [`step`] prescribes.
    pub fn apply(
        &mut self,
        client_id: ClientId,
        tx_id: TxId,
        kind: TransactionKindCsv,
        amount: Option<&str>,
    ) -> (r: Result<(), LedgerError>)
        requires
            old(self).wf(),
        ensures
            final(self).wf(),
            ({
                let pre = if old(self)@.contains_key(client_id) {
                    old(self)@[client_id]
                } else {
                    initial_client()
                };
                match step(pre, tx_id, kind, amount_chars(amount)) {
                    Ok(m) => r is Ok && final(self)@ == old(self)@.insert(client_id, m),
                    Err(e) => r == Err::<(), LedgerError>(e) && final(self)@ == old(
                        self,
                    )@.insert(client_id, pre),
                }
            }),
    {
        let ghost pre_map = self@;
        let idx = match self.find_client(client_id) {
            Some(i) => i,
            None => {
                let fresh = Client::new();
                proof {
                    lemma_clients_map_props(self.clients@);
                    lemma_clients_map_push(self.clients@, client_id, fresh);
                }
                self.clients.push((client_id, fresh));
                self.clients.len() - 1
            },
        };
        let ghost mid = self.clients@;
        let ghost pre_client = self.clients@[idx as int].1;
        let r = self.clients[idx].1.process_transaction(tx_id, kind, amount);
        proof {
            assert(self.clients@ == mid.update(idx as int, (client_id, self.clients@[idx as int].1)));
            lemma_clients_map_update(mid, idx as int, self.clients@[idx as int].1);
            if !pre_map.contains_key(client_id) {
                assert(clients_map(mid) == pre_map.insert(client_id, initial_client()));
                assert(self@ =~= pre_map.insert(client_id, self.clients@[idx as int].1@));
            }
        }
        r
    }

    /// Hands the ledgers out, once, for rendering; no order is promised.
    pub fn snapshot(self) -> (r: Vec<(ClientId, Client)>)
        requires
            self.wf(),
        ensures
            clients_map(r@) == self@,
            forall|i: int, j: int|
                0 <= i < j < r@.len() ==> (#[trigger] r@[i]).0 != (#[trigger] r@[j]).0,
            forall|i: int| 0 <= i < r@.len() ==> (#[trigger] r@[i]).1.wf(),
            forall|i: int|
                0 <= i < r@.len() ==> self@.contains_key((#[trigger] r@[i]).0) && self@[r@[i].0]
                    == r@[i].1@,
    {
        proof {
            assert forall|i: int| 0 <= i < self.clients@.len() implies self@.contains_key(
                (#[trigger] self.clients@[i]).0,
            ) && self@[self.clients@[i].0] == self.clients@[i].1@ by {
                lemma_clients_map_value(self.clients@, i);
            }
        }
        self.clients
    }
}

/// Whether every ledger's total, available plus held, fits the backing
/// integer.
pub open spec fn all_totals_fit(s: Seq<(ClientId, Client)>) -> bool {
    forall|i: int|
        0 <= i < s.len() ==> (#[trigger] s[i]).1@.available + s[i].1@.held <= u64::MAX
}

/// The header row of the rendered output.
pub open spec fn header_text() -> Seq<char> {
    "client,available,held,total,locked\n"@
}

/// The rendered rows of a sequence of client entries, in their order.
pub open spec fn rows_text(s: Seq<(ClientId, Client)>) -> Seq<char>
    decreases s.len(),
{
    if s.len() == 0 {
        Seq::empty()
    } else {
        rows_text(s.drop_last()) + row_text(s.last().0, s.last().1@)
    }
}

/// Renders the header and one row per client, in the order given; fails
/// with `Overflow` when some client's total does not fit.
#[verifier::rlimit(30)]
#[verifier::loop_isolation(false)]
pub fn write_clients(clients: Vec<(ClientId, Client)>) -> (r: Result<String, LedgerError>)
    ensures
        match r {
            Ok(out) => all_totals_fit(clients@) && out@ == header_text() + rows_text(clients@),
            Err(e) => e == LedgerError::Overflow && !all_totals_fit(clients@),
        },
{
    let ghost orig = clients@;
    let mut rest = clients;
    let mut out = String::from_str("client,available,held,total,locked\n");
    let ghost mut k: int = 0;
    while rest.len() > 0
        invariant
            0 <= k <= orig.len(),
            rest@ == orig.skip(k),
            out@ == header_text() + rows_text(orig.take(k)),
            forall|i: int|
                0 <= i < k ==> (#[trigger] orig[i]).1@.available + orig[i].1@.held <= u64::MAX,
        decreases rest@.len(),
    {
        let pair = rest.remove(0);
        proof {
            assert(pair == orig[k]);
            assert(rest@ =~= orig.skip(k + 1));
        }
        let row = match pair.1.into_csv_row(pair.0) {
            Ok(rw) => rw,
            Err(e) => {
                proof {
                    assert(orig[k].1@.available + orig[k].1@.held > u64::MAX);
                }
                return Err(e);
            },
        };
        out.append(row.as_str());
        proof {
            assert(orig.take(k + 1).drop_last() =~= orig.take(k));
            assert(orig.take(k + 1).last() == orig[k]);
            assert(rows_text(orig.take(k + 1)) == rows_text(orig.take(k)) + row_text(
                orig[k].0,
                orig[k].1@,
            ));
            assert(out@ =~= header_text() + rows_text(orig.take(k + 1)));
            k = k + 1;
        }
    }
    proof {
        assert(orig.take(k) =~= orig);
    }
    Ok(out)
}

} // verus!
