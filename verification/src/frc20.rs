use crate::u256::U256;
use vstd::arithmetic::div_mod::lemma_fundamental_div_mod_converse;
use vstd::prelude::*;

verus! {

/// A failure of one ledger or persistence operation. Every failure aborts
/// the whole operation with no partial mutation.
#[derive(Clone, Copy, Debug, PartialEq, Eq, Structural)]
pub enum TokenError {
    /// A debit would exceed the debited balance.
    InsufficientBalance,
    /// A spend would exceed the granted allowance.
    InsufficientAllowance,
    /// No persisted state is reachable from the root pointer.
    StateNotFound,
    /// Stored bytes do not decode to a ledger state.
    SerializationFailure,
}

/// The mathematical content of a ledger state: both tables are key-ordered
/// association lists from packed keys to amounts.
#[verifier::ext_equal]
pub ghost struct LedgerModel {
    pub name: Seq<char>,
    pub symbol: Seq<char>,
    pub decimals: u8,
    pub total_supply: nat,
    pub balances: Seq<(u128, nat)>,
    pub allowances: Seq<(u128, nat)>,
}

/// The amount a table associates with a key; absence means zero.
pub open spec fn slookup(s: Seq<(u128, nat)>, k: u128) -> nat
    decreases s.len(),
{
    if s.len() == 0 {
        0
    } else if s[0].0 == k {
        s[0].1
    } else {
        slookup(s.drop_first(), k)
    }
}

/// The sum of all amounts a table holds.
pub open spec fn ssum(s: Seq<(u128, nat)>) -> nat
    decreases s.len(),
{
    if s.len() == 0 {
        0
    } else {
        s[0].1 + ssum(s.drop_first())
    }
}

/// Keys strictly increase, so each key occurs at most once.
pub open spec fn skeys_sorted(s: Seq<(u128, nat)>) -> bool {
    forall|i: int, j: int| 0 <= i < j < s.len() ==> s[i].0 < s[j].0
}

/// The table after associating `k` with `v`, keeping the key order.
pub open spec fn sset(s: Seq<(u128, nat)>, k: u128, v: nat) -> Seq<(u128, nat)>
    decreases s.len(),
{
    if s.len() == 0 {
        seq![(k, v)]
    } else if s[0].0 < k {
        seq![s[0]] + sset(s.drop_first(), k, v)
    } else if s[0].0 == k {
        seq![(k, v)] + s.drop_first()
    } else {
        seq![(k, v)] + s
    }
}

/// A balance table after moving `v` from `from` to `to`: the debit is
/// written first, then the credit reads the debited table, so moving value
/// from a key to itself nets to no change.
pub open spec fn xfer_model(b: Seq<(u128, nat)>, from: u128, to: u128, v: nat) -> Seq<
    (u128, nat),
> {
    let debited = sset(b, from, (slookup(b, from) - v) as nat);
    sset(debited, to, (slookup(debited, to) + v) as nat)
}

/// An owner/spender pair packed into one table key.
pub open spec fn pair_key(owner: u64, spender: u64) -> u128 {
    ((owner as int) * 0x10000000000000000 + spender as int) as u128
}

/// The ledger conserves value: the balances sum to the total supply.
pub open spec fn conserves_model(m: LedgerModel) -> bool {
    ssum(m.balances) == m.total_supply
}

pub proof fn lemma_sorted_drop_first(s: Seq<(u128, nat)>)
    requires
        skeys_sorted(s),
        s.len() > 0,
    ensures
        skeys_sorted(s.drop_first()),
{
    assert forall|i: int, j: int| 0 <= i < j < s.drop_first().len() implies s.drop_first()[i].0
        < s.drop_first()[j].0 by {
        assert(s.drop_first()[i] == s[i + 1]);
        assert(s.drop_first()[j] == s[j + 1]);
    }
}

/// What one write does to a key-ordered table: order is kept, the written
/// key reads back the written amount, every other key is untouched, and the
/// table's sum changes by exactly the difference written.
pub proof fn lemma_sset_props(s: Seq<(u128, nat)>, k: u128, v: nat)
    requires
        skeys_sorted(s),
    ensures
        skeys_sorted(sset(s, k, v)),
        slookup(sset(s, k, v), k) == v,
        forall|k2: u128| k2 != k ==> slookup(sset(s, k, v), k2) == slookup(s, k2),
        ssum(sset(s, k, v)) + slookup(s, k) == ssum(s) + v,
        sset(s, k, v).len() > 0,
        sset(s, k, v)[0].0 == (if s.len() == 0 {
            k
        } else if s[0].0 < k {
            s[0].0
        } else {
            k
        }),
        sset(s, k, v).len() <= s.len() + 1,
    decreases s.len(),
{
    if s.len() == 0 {
        let r = sset(s, k, v);
        assert(r =~= seq![(k, v)]);
        assert(r.drop_first() =~= Seq::<(u128, nat)>::empty());
        assert(ssum(Seq::<(u128, nat)>::empty()) == 0);
        assert(ssum(r) == r[0].1 + ssum(r.drop_first()));
        assert forall|k2: u128| k2 != k implies slookup(r, k2) == slookup(s, k2) by {
            assert(slookup(r, k2) == slookup(r.drop_first(), k2));
            assert(slookup(Seq::<(u128, nat)>::empty(), k2) == 0);
        }
    } else if s[0].0 < k {
        let t = s.drop_first();
        lemma_sorted_drop_first(s);
        lemma_sset_props(t, k, v);
        let r = sset(s, k, v);
        assert(r == seq![s[0]] + sset(t, k, v));
        assert(r[0] == s[0]);
        assert(r.drop_first() =~= sset(t, k, v));
        assert forall|i: int, j: int| 0 <= i < j < r.len() implies r[i].0 < r[j].0 by {
            if i == 0 {
                if j == 1 {
                    assert(r[1] == sset(t, k, v)[0]);
                    if t.len() > 0 {
                        assert(t[0] == s[1]);
                    }
                } else {
                    assert(r[j] == sset(t, k, v)[j - 1]);
                    assert(sset(t, k, v)[0].0 < sset(t, k, v)[j - 1].0);
                    if t.len() > 0 {
                        assert(t[0] == s[1]);
                    }
                }
            } else {
                assert(r[i] == sset(t, k, v)[i - 1]);
                assert(r[j] == sset(t, k, v)[j - 1]);
            }
        }
        assert(slookup(r, k) == slookup(sset(t, k, v), k));
        assert forall|k2: u128| k2 != k implies slookup(r, k2) == slookup(s, k2) by {
            assert(r[0] == s[0]);
            if s[0].0 == k2 {
                assert(slookup(r, k2) == s[0].1);
                assert(slookup(s, k2) == s[0].1);
            } else {
                assert(slookup(r, k2) == slookup(r.drop_first(), k2));
                assert(r.drop_first() == sset(t, k, v));
                assert(slookup(sset(t, k, v), k2) == slookup(t, k2));
                assert(slookup(s, k2) == slookup(t, k2));
            }
        }
        assert(ssum(r) == s[0].1 + ssum(sset(t, k, v)));
        assert(slookup(s, k) == slookup(t, k));
    } else if s[0].0 == k {
        let t = s.drop_first();
        lemma_sorted_drop_first(s);
        let r = sset(s, k, v);
        assert(r == seq![(k, v)] + t);
        assert(r[0] == (k, v));
        assert(r.drop_first() =~= t);
        assert forall|i: int, j: int| 0 <= i < j < r.len() implies r[i].0 < r[j].0 by {
            if i == 0 {
                assert(r[j] == t[j - 1]);
                assert(t[j - 1] == s[j]);
            } else {
                assert(r[i] == s[i]);
                assert(r[j] == s[j]);
            }
        }
        assert(slookup(r, k) == v);
        assert forall|k2: u128| k2 != k implies slookup(r, k2) == slookup(s, k2) by {
            assert(slookup(r, k2) == slookup(t, k2));
        }
        assert(ssum(r) == v + ssum(t));
        assert(ssum(s) == s[0].1 + ssum(t));
    } else {
        let r = sset(s, k, v);
        assert(r == seq![(k, v)] + s);
        assert(r[0] == (k, v));
        assert(r.drop_first() =~= s);
        assert forall|i: int, j: int| 0 <= i < j < r.len() implies r[i].0 < r[j].0 by {
            if i == 0 {
                assert(r[j] == s[j - 1]);
                assert(s[0].0 <= s[j - 1].0);
            } else {
                assert(r[i] == s[i - 1]);
                assert(r[j] == s[j - 1]);
            }
        }
        assert(slookup(r, k) == v);
        assert forall|k2: u128| k2 != k implies slookup(r, k2) == slookup(s, k2) by {
            assert(slookup(r, k2) == slookup(s, k2));
        }
        assert(ssum(r) == v + ssum(s));
        lemma_slookup_head_absent(s, k);
    }
}

/// A key below every key of a sorted table is absent from it.
pub proof fn lemma_slookup_head_absent(s: Seq<(u128, nat)>, k: u128)
    requires
        skeys_sorted(s),
        s.len() == 0 || k < s[0].0,
    ensures
        slookup(s, k) == 0,
    decreases s.len(),
{
    if s.len() > 0 {
        lemma_sorted_drop_first(s);
        if s.drop_first().len() > 0 {
            assert(s.drop_first()[0] == s[1]);
        }
        lemma_slookup_head_absent(s.drop_first(), k);
    }
}

/// Packing an owner/spender pair into one key loses nothing: equal keys come
/// only from the equal pair.
pub proof fn lemma_pair_key_injective(o1: u64, s1: u64, o2: u64, s2: u64)
    requires
        pair_key(o1, s1) == pair_key(o2, s2),
    ensures
        o1 == o2,
        s1 == s2,
{
    let x = (o1 as int) * 0x10000000000000000 + s1 as int;
    lemma_fundamental_div_mod_converse(x, 0x10000000000000000, o1 as int, s1 as int);
    lemma_fundamental_div_mod_converse(x, 0x10000000000000000, o2 as int, s2 as int);
}

/// Moving an amount a holder owns from that holder to itself leaves every
/// balance unchanged.
pub proof fn lemma_self_transfer(b: Seq<(u128, nat)>, p: u128, v: nat)
    requires
        skeys_sorted(b),
        v <= slookup(b, p),
    ensures
        forall|q: u128| slookup(xfer_model(b, p, p, v), q) == slookup(b, q),
{
    let debited = sset(b, p, (slookup(b, p) - v) as nat);
    lemma_sset_props(b, p, (slookup(b, p) - v) as nat);
    lemma_sset_props(debited, p, (slookup(debited, p) + v) as nat);
}

/// A second grant to the same owner/spender pair overwrites the first: the
/// allowance read afterwards is the second amount, not the sum.
pub proof fn lemma_approve_overwrite(a: Seq<(u128, nat)>, k: u128, v1: nat, v2: nat)
    requires
        skeys_sorted(a),
    ensures
        slookup(sset(sset(a, k, v1), k, v2), k) == v2,
{
    lemma_sset_props(a, k, v1);
    lemma_sset_props(sset(a, k, v1), k, v2);
}

/// A transfer moves value without creating or destroying it: the table's sum
/// is unchanged, the debited key drops by the amount, the credited key grows
/// by it, and every other key is untouched.
pub proof fn lemma_xfer_props(b: Seq<(u128, nat)>, from: u128, to: u128, v: nat)
    requires
        skeys_sorted(b),
        v <= slookup(b, from),
    ensures
        skeys_sorted(xfer_model(b, from, to, v)),
        ssum(xfer_model(b, from, to, v)) == ssum(b),
        from != to ==> slookup(xfer_model(b, from, to, v), from) == slookup(b, from) - v,
        from != to ==> slookup(xfer_model(b, from, to, v), to) == slookup(b, to) + v,
        from == to ==> forall|q: u128| slookup(xfer_model(b, from, to, v), q) == slookup(b, q),
        forall|q: u128|
            q != from && q != to ==> slookup(xfer_model(b, from, to, v), q) == slookup(b, q),
    {
    let debited = sset(b, from, (slookup(b, from) - v) as nat);
    lemma_sset_props(b, from, (slookup(b, from) - v) as nat);
    lemma_sset_props(debited, from, (slookup(debited, from) + v) as nat);
    lemma_sset_props(debited, to, (slookup(debited, to) + v) as nat);
}

/// The interface of the fungible-token ledger. Every operation takes the
/// already-authenticated caller explicitly; mutating operations either
/// succeed or leave the state exactly as it was.
pub trait FRC20: Sized {
    spec fn model(&self) -> LedgerModel;

    spec fn wf(&self) -> bool;

    fn name(&self) -> (r: String)
        requires
            self.wf(),
        ensures
            r@ == self.model().name,
    ;

    fn symbol(&self) -> (r: String)
        requires
            self.wf(),
        ensures
            r@ == self.model().symbol,
    ;

    fn decimals(&self) -> (r: u8)
        requires
            self.wf(),
        ensures
            r == self.model().decimals,
    ;

    fn total_supply(&self) -> (r: U256)
        requires
            self.wf(),
        ensures
            r.wf(),
            r@ == self.model().total_supply,
    ;

    fn balance_of(&self, owner: u64) -> (r: U256)
        requires
            self.wf(),
        ensures
            r.wf(),
            r@ == slookup(self.model().balances, owner as u128),
    ;

    /// Moves `value` from the caller to `to`. Fails with
    /// `InsufficientBalance`, changing nothing, exactly when the caller's
    /// balance is below `value`.
    fn transfer(&mut self, caller: u64, to: u64, value: &U256) -> (r: Result<(), TokenError>)
        requires
            old(self).wf(),
            value.wf(),
        ensures
            final(self).wf(),
            r is Ok <==> value@ <= slookup(old(self).model().balances, caller as u128),
            (r is Err ==> r == Err::<(), TokenError>(TokenError::InsufficientBalance)
                && final(self).model() == old(self).model()),
            (r is Ok ==> final(self).model() == (LedgerModel {
                balances: xfer_model(
                    old(self).model().balances,
                    caller as u128,
                    to as u128,
                    value@,
                ),
                ..old(self).model()
            })),
            (r is Ok ==> ssum(final(self).model().balances) == ssum(old(self).model().balances)),
            conserves_model(old(self).model()) ==> conserves_model(final(self).model()),
    ;

    /// Moves `value` from `from` to `to`, spending the allowance `from`
    /// granted to the caller. Fails with `InsufficientAllowance` when that
    /// allowance is below `value`, else with `InsufficientBalance` when the
    /// balance of `from` is below `value`; a failed call changes nothing.
    /// The allowance itself is not decremented by a successful spend.
    fn transfer_from(&mut self, caller: u64, from: u64, to: u64, value: &U256) -> (r: Result<
        (),
        TokenError,
    >)
        requires
            old(self).wf(),
            value.wf(),
        ensures
            final(self).wf(),
            (r is Ok <==> {
                &&& value@ <= slookup(old(self).model().allowances, pair_key(from, caller))
                &&& value@ <= slookup(old(self).model().balances, from as u128)
            }),
            r == Err::<(), TokenError>(TokenError::InsufficientAllowance) <==> value@ > slookup(
                old(self).model().allowances,
                pair_key(from, caller),
            ),
            (r is Err ==> final(self).model() == old(self).model()),
            (r is Ok ==> final(self).model() == (LedgerModel {
                balances: xfer_model(old(self).model().balances, from as u128, to as u128, value@),
                ..old(self).model()
            })),
            (r is Ok ==> ssum(final(self).model().balances) == ssum(old(self).model().balances)),
            conserves_model(old(self).model()) ==> conserves_model(final(self).model()),
    ;

    /// Unconditionally sets the allowance the caller grants to `spender`,
    /// overwriting any earlier grant; always succeeds.
    fn approve(&mut self, caller: u64, spender: u64, value: &U256) -> (r: bool)
        requires
            old(self).wf(),
            value.wf(),
        ensures
            final(self).wf(),
            r == true,
            final(self).model() == (LedgerModel {
                allowances: sset(
                    old(self).model().allowances,
                    pair_key(caller, spender),
                    value@,
                ),
                ..old(self).model()
            }),
            slookup(final(self).model().allowances, pair_key(caller, spender)) == value@,
            forall|o2: u64, s2: u64|
                !(o2 == caller && s2 == spender) ==> slookup(
                    final(self).model().allowances,
                    #[trigger] pair_key(o2, s2),
                ) == slookup(old(self).model().allowances, pair_key(o2, s2)),
    ;

    fn allowance(&self, owner: u64, spender: u64) -> (r: U256)
        requires
            self.wf(),
        ensures
            r.wf(),
            r@ == slookup(self.model().allowances, pair_key(owner, spender)),
    ;
}

} // verus!
