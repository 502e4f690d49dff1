use crate::frc20::{
    conserves_model, lemma_sset_props, pair_key, skeys_sorted, slookup, sset, ssum, xfer_model,
    FRC20, LedgerModel, TokenError,
};
use crate::u256::U256;
use vstd::prelude::*;

verus! {

/// The mathematical content of a table: each entry's amount replaced by its
/// value.
pub open spec fn tmodel(s: Seq<(u128, U256)>) -> Seq<(u128, nat)> {
    s.map_values(|e: (u128, U256)| (e.0, e.1@))
}

/// Every amount a table holds is well formed.
pub open spec fn entries_wf(s: Seq<(u128, U256)>) -> bool {
    forall|j: int| 0 <= j < s.len() ==> (#[trigger] s[j]).1.wf()
}

/// Packs an owner/spender pair into one table key.
pub fn pack_key(owner: u64, spender: u64) -> (k: u128)
    ensures
        k == pair_key(owner, spender),
{
    proof {
        assert((owner as int) * 0x10000000000000000 + (spender as int)
            < 0x100000000000000000000000000000000);
    }
    (owner as u128) * 0x10000000000000000 + (spender as u128)
}

/// The amount a table associates with a key, searched from position `i` on;
/// zero when the key is absent.
fn tbl_get(entries: &Vec<(u128, U256)>, i: usize, k: u128) -> (r: U256)
    requires
        i <= entries@.len(),
        entries_wf(entries@),
    ensures
        r.wf(),
        r@ == slookup(tmodel(entries@.skip(i as int)), k),
    decreases entries@.len() - i,
{
    if i == entries.len() {
        proof {
            assert(entries@.skip(i as int) =~= Seq::<(u128, U256)>::empty());
            assert(tmodel(entries@.skip(i as int)) =~= Seq::<(u128, nat)>::empty());
        }
        U256::zero()
    } else {
        proof {
            assert(entries@.skip(i as int)[0] == entries@[i as int]);
            assert(tmodel(entries@.skip(i as int))[0] == (
                entries@[i as int].0,
                entries@[i as int].1@,
            ));
            assert(tmodel(entries@.skip(i as int)).drop_first() =~= tmodel(
                entries@.skip(i + 1),
            ));
        }
        let e = &entries[i];
        if e.0 == k {
            e.1.clone()
        } else {
            tbl_get(entries, i + 1, k)
        }
    }
}

/// A copy of the table from position `i` on.
fn tbl_copy(entries: &Vec<(u128, U256)>, i: usize) -> (r: Vec<(u128, U256)>)
    requires
        i <= entries@.len(),
        entries_wf(entries@),
    ensures
        tmodel(r@) == tmodel(entries@.skip(i as int)),
        entries_wf(r@),
    decreases entries@.len() - i,
{
    if i == entries.len() {
        proof {
            assert(entries@.skip(i as int) =~= Seq::<(u128, U256)>::empty());
            assert(tmodel(Seq::<(u128, U256)>::empty()) =~= tmodel(entries@.skip(i as int)));
        }
        Vec::new()
    } else {
        let mut rest = tbl_copy(entries, i + 1);
        let e = &entries[i];
        let ghost prev = rest@;
        rest.insert(0, (e.0, e.1.clone()));
        proof {
            assert(rest@.drop_first() =~= prev);
            assert(entries@.skip(i as int)[0] == entries@[i as int]);
            assert(tmodel(prev).len() == prev.len());
            assert(tmodel(prev) == tmodel(entries@.skip(i + 1)));
            assert(prev.len() == entries@.skip(i + 1).len());
            assert(rest@.len() == prev.len() + 1);
            assert(tmodel(rest@).len() == rest@.len());
            assert(tmodel(rest@).len() == tmodel(entries@.skip(i as int)).len());
            assert forall|j: int| 0 <= j < rest@.len() implies tmodel(rest@)[j] == tmodel(
                entries@.skip(i as int),
            )[j] by {
                if j == 0 {
                    assert(rest@[0] == (entries@[i as int].0, rest@[0].1));
                } else {
                    assert(rest@[j] == prev[j - 1]);
                    assert(tmodel(prev)[j - 1] == tmodel(entries@.skip(i + 1))[j - 1]);
                    assert(entries@.skip(i + 1)[j - 1] == entries@.skip(i as int)[j]);
                }
            }
            assert(tmodel(rest@) =~= tmodel(entries@.skip(i as int)));
        }
        rest
    }
}

/// The table after associating `k` with `v` from position `i` on, keeping
/// the key order.
fn tbl_set(entries: &Vec<(u128, U256)>, i: usize, k: u128, v: U256) -> (r: Vec<(u128, U256)>)
    requires
        i <= entries@.len(),
        entries_wf(entries@),
        v.wf(),
    ensures
        tmodel(r@) == sset(tmodel(entries@.skip(i as int)), k, v@),
        entries_wf(r@),
    decreases entries@.len() - i,
{
    if i == entries.len() {
        proof {
            assert(entries@.skip(i as int) =~= Seq::<(u128, U256)>::empty());
            assert(tmodel(entries@.skip(i as int)) =~= Seq::<(u128, nat)>::empty());
        }
        let mut r: Vec<(u128, U256)> = Vec::new();
        r.push((k, v));
        proof {
            assert(tmodel(r@) =~= seq![(k, v@)]);
            assert(sset(tmodel(entries@.skip(i as int)), k, v@) == seq![(k, v@)]);
        }
        r
    } else {
        proof {
            assert(entries@.skip(i as int)[0] == entries@[i as int]);
            assert(tmodel(entries@.skip(i as int))[0] == (
                entries@[i as int].0,
                entries@[i as int].1@,
            ));
            assert(tmodel(entries@.skip(i as int)).drop_first() =~= tmodel(
                entries@.skip(i + 1),
            ));
        }
        let e = &entries[i];
        let ghost msuf = tmodel(entries@.skip(i as int));
        if e.0 < k {
            let mut rest = tbl_set(entries, i + 1, k, v);
            let ghost prev = rest@;
            rest.insert(0, (e.0, e.1.clone()));
            proof {
                assert(rest@.drop_first() =~= prev);
                assert(tmodel(rest@) =~= seq![msuf[0]] + sset(msuf.drop_first(), k, v@));
            }
            rest
        } else if e.0 == k {
            let mut rest = tbl_copy(entries, i + 1);
            let ghost prev = rest@;
            rest.insert(0, (k, v));
            proof {
                assert(rest@.drop_first() =~= prev);
                assert(tmodel(rest@) =~= seq![(k, v@)] + msuf.drop_first());
            }
            rest
        } else {
            let mut rest = tbl_copy(entries, i);
            let ghost prev = rest@;
            rest.insert(0, (k, v));
            proof {
                assert(rest@.drop_first() =~= prev);
                assert(tmodel(rest@) =~= seq![(k, v@)] + msuf);
            }
            rest
        }
    }
}

/// The token ledger: immutable metadata, the fixed total supply, balances,
/// and the allowances each owner granted each spender.
#[derive(Debug, PartialEq)]
pub struct StandardToken {
    pub name: String,
    pub symbol: String,
    pub decimals: u8,
    pub total_supply: U256,
    pub balances: Vec<(u128, U256)>,
    pub allowed: Vec<(u128, U256)>,
}

impl View for StandardToken {
    type V = LedgerModel;

    open spec fn view(&self) -> LedgerModel {
        LedgerModel {
            name: self.name@,
            symbol: self.symbol@,
            decimals: self.decimals,
            total_supply: self.total_supply@,
            balances: tmodel(self.balances@),
            allowances: tmodel(self.allowed@),
        }
    }
}

impl StandardToken {
    /// Both tables are key-ordered and every stored amount is well formed.
    pub open spec fn token_wf(&self) -> bool {
        &&& self.total_supply.wf()
        &&& skeys_sorted(tmodel(self.balances@))
        &&& entries_wf(self.balances@)
        &&& skeys_sorted(tmodel(self.allowed@))
        &&& entries_wf(self.allowed@)
    }

    /// The genesis state: the whole supply stands on the creating caller's
    /// balance and no allowance is granted.
    pub fn new(name: String, symbol: String, decimals: u8, caller: u64, initial_supply: U256) -> (t:
        StandardToken)
        requires
            initial_supply.wf(),
        ensures
            t.wf(),
            conserves_model(t@),
            t@ == (LedgerModel {
                name: name@,
                symbol: symbol@,
                decimals: decimals,
                total_supply: initial_supply@,
                balances: seq![(caller as u128, initial_supply@)],
                allowances: Seq::<(u128, nat)>::empty(),
            }),
    {
        let supply_copy = initial_supply.clone();
        let mut balances: Vec<(u128, U256)> = Vec::new();
        balances.push((caller as u128, initial_supply));
        let t = StandardToken {
            name,
            symbol,
            decimals,
            total_supply: supply_copy,
            balances,
            allowed: Vec::new(),
        };
        proof {
            assert(tmodel(t.balances@) =~= seq![(caller as u128, supply_copy@)]);
            assert(tmodel(t.allowed@) =~= Seq::<(u128, nat)>::empty());
            assert(seq![(caller as u128, supply_copy@)].drop_first() =~= Seq::<
                (u128, nat),
            >::empty());
            assert(ssum(Seq::<(u128, nat)>::empty()) == 0);
            assert(ssum(seq![(caller as u128, supply_copy@)]) == supply_copy@ + ssum(
                seq![(caller as u128, supply_copy@)].drop_first(),
            ));
            assert(ssum(tmodel(t.balances@)) == supply_copy@);
            assert(t@ =~= (LedgerModel {
                name: t.name@,
                symbol: t.symbol@,
                decimals: t.decimals,
                total_supply: supply_copy@,
                balances: seq![(caller as u128, supply_copy@)],
                allowances: Seq::<(u128, nat)>::empty(),
            }));
        }
        t
    }
}

impl Default for StandardToken {
    /// An empty ledger: no supply, no balances, no allowances.
    fn default() -> (t: Self)
        ensures
            t.wf(),
            conserves_model(t@),
            t@.total_supply == 0,
            t@.balances == Seq::<(u128, nat)>::empty(),
            t@.allowances == Seq::<(u128, nat)>::empty(),
            t@.name == Seq::<char>::empty(),
            t@.symbol == Seq::<char>::empty(),
            t@.decimals == 0,
    {
        let t = StandardToken {
            name: String::new(),
            symbol: String::new(),
            decimals: 0,
            total_supply: U256::zero(),
            balances: Vec::new(),
            allowed: Vec::new(),
        };
        proof {
            assert(tmodel(t.balances@) =~= Seq::<(u128, nat)>::empty());
            assert(tmodel(t.allowed@) =~= Seq::<(u128, nat)>::empty());
        }
        t
    }
}

impl FRC20 for StandardToken {
    open spec fn model(&self) -> LedgerModel {
        self@
    }

    open spec fn wf(&self) -> bool {
        self.token_wf()
    }

    fn name(&self) -> (r: String) {
        self.name.clone()
    }

    fn symbol(&self) -> (r: String) {
        self.symbol.clone()
    }

    fn decimals(&self) -> (r: u8) {
        self.decimals
    }

    fn total_supply(&self) -> (r: U256) {
        self.total_supply.clone()
    }

    fn balance_of(&self, owner: u64) -> (r: U256) {
        proof {
            assert(self.balances@.skip(0) =~= self.balances@);
        }
        tbl_get(&self.balances, 0, owner as u128)
    }

    fn transfer(&mut self, caller: u64, to: u64, value: &U256) -> (r: Result<(), TokenError>) {
        proof {
            assert(self.balances@.skip(0) =~= self.balances@);
        }
        let ghost m0 = self@;
        let from_key: u128 = caller as u128;
        let to_key: u128 = to as u128;
        let bal = tbl_get(&self.balances, 0, from_key);
        if matches!(value.compare(&bal), crate::u256::AmountOrdering::Greater) {
            return Err(TokenError::InsufficientBalance);
        }
        let debited = bal.sub(value);
        let nb = tbl_set(&self.balances, 0, from_key, debited);
        self.balances = nb;
        proof {
            assert(self.balances@.skip(0) =~= self.balances@);
            lemma_sset_props(m0.balances, from_key, (slookup(m0.balances, from_key) - value@) as nat);
        }
        let ghost m1 = tmodel(self.balances@);
        let to_bal = tbl_get(&self.balances, 0, to_key);
        let credited = to_bal.add(value);
        let nb2 = tbl_set(&self.balances, 0, to_key, credited);
        self.balances = nb2;
        proof {
            lemma_sset_props(m1, to_key, (slookup(m1, to_key) + value@) as nat);
            assert(tmodel(self.balances@) == xfer_model(m0.balances, from_key, to_key, value@));
            assert(ssum(m1) + slookup(m0.balances, from_key) == ssum(m0.balances) + (slookup(
                m0.balances,
                from_key,
            ) - value@) as nat);
            assert(ssum(tmodel(self.balances@)) + slookup(m1, to_key) == ssum(m1) + (slookup(
                m1,
                to_key,
            ) + value@) as nat);
            assert(ssum(tmodel(self.balances@)) == ssum(m0.balances));
            assert(self@ =~= (LedgerModel {
                balances: xfer_model(m0.balances, caller as u128, to as u128, value@),
                ..m0
            }));
        }
        Ok(())
    }

    fn transfer_from(&mut self, caller: u64, from: u64, to: u64, value: &U256) -> (r: Result<
        (),
        TokenError,
    >) {
        proof {
            assert(self.balances@.skip(0) =~= self.balances@);
            assert(self.allowed@.skip(0) =~= self.allowed@);
        }
        let ghost m0 = self@;
        let grant_key = pack_key(from, caller);
        let granted = tbl_get(&self.allowed, 0, grant_key);
        if matches!(value.compare(&granted), crate::u256::AmountOrdering::Greater) {
            return Err(TokenError::InsufficientAllowance);
        }
        let from_key: u128 = from as u128;
        let to_key: u128 = to as u128;
        let bal = tbl_get(&self.balances, 0, from_key);
        if matches!(value.compare(&bal), crate::u256::AmountOrdering::Greater) {
            return Err(TokenError::InsufficientBalance);
        }
        let debited = bal.sub(value);
        let nb = tbl_set(&self.balances, 0, from_key, debited);
        self.balances = nb;
        proof {
            assert(self.balances@.skip(0) =~= self.balances@);
            lemma_sset_props(m0.balances, from_key, (slookup(m0.balances, from_key) - value@) as nat);
        }
        let ghost m1 = tmodel(self.balances@);
        let to_bal = tbl_get(&self.balances, 0, to_key);
        let credited = to_bal.add(value);
        let nb2 = tbl_set(&self.balances, 0, to_key, credited);
        self.balances = nb2;
        proof {
            lemma_sset_props(m1, to_key, (slookup(m1, to_key) + value@) as nat);
            assert(tmodel(self.balances@) == xfer_model(m0.balances, from_key, to_key, value@));
            assert(ssum(m1) + slookup(m0.balances, from_key) == ssum(m0.balances) + (slookup(
                m0.balances,
                from_key,
            ) - value@) as nat);
            assert(ssum(tmodel(self.balances@)) + slookup(m1, to_key) == ssum(m1) + (slookup(
                m1,
                to_key,
            ) + value@) as nat);
            assert(ssum(tmodel(self.balances@)) == ssum(m0.balances));
            assert(self@ =~= (LedgerModel {
                balances: xfer_model(m0.balances, from as u128, to as u128, value@),
                ..m0
            }));
        }
        Ok(())
    }

    fn approve(&mut self, caller: u64, spender: u64, value: &U256) -> (r: bool) {
        proof {
            assert(self.allowed@.skip(0) =~= self.allowed@);
        }
        let ghost m0 = self@;
        let grant_key = pack_key(caller, spender);
        let na = tbl_set(&self.allowed, 0, grant_key, value.clone());
        self.allowed = na;
        proof {
            lemma_sset_props(m0.allowances, grant_key, value@);
            assert(self@ =~= (LedgerModel {
                allowances: sset(m0.allowances, pair_key(caller, spender), value@),
                ..m0
            }));
            assert forall|o2: u64, s2: u64| !(o2 == caller && s2 == spender) implies slookup(
                self@.allowances,
                #[trigger] pair_key(o2, s2),
            ) == slookup(m0.allowances, pair_key(o2, s2)) by {
                if pair_key(o2, s2) == grant_key {
                    crate::frc20::lemma_pair_key_injective(o2, s2, caller, spender);
                }
            }
        }
        true
    }

    fn allowance(&self, owner: u64, spender: u64) -> (r: U256) {
        proof {
            assert(self.allowed@.skip(0) =~= self.allowed@);
        }
        let grant_key = pack_key(owner, spender);
        tbl_get(&self.allowed, 0, grant_key)
    }
}

} // verus!
