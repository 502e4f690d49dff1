use crate::u256::U256;
use vstd::prelude::*;

verus! {

/// The observable record of one transfer, produced as the call's result and
/// not persisted.
#[derive(Debug, PartialEq)]
pub struct Transfer {
    pub from: u64,
    pub to: u64,
    pub value: U256,
}

impl Transfer {
    pub open spec fn spec_from(&self) -> u64 {
        self.from
    }

    pub open spec fn spec_to(&self) -> u64 {
        self.to
    }

    pub open spec fn spec_value(&self) -> nat {
        self.value@
    }

    pub open spec fn wf(&self) -> bool {
        self.value.wf()
    }

    pub fn new(_from: u64, _to: u64, _value: U256) -> (r: Self)
        ensures
            r.spec_from() == _from,
            r.spec_to() == _to,
            r.spec_value() == _value@,
            r.wf() == _value.wf(),
    {
        Self { from: _from, to: _to, value: _value }
    }
}

/// The observable record of one approval, produced as the call's result and
/// not persisted.
#[derive(Debug, PartialEq)]
pub struct Approve {
    pub owner: u64,
    pub spend: u64,
    pub value: U256,
}

impl Approve {
    pub open spec fn spec_owner(&self) -> u64 {
        self.owner
    }

    pub open spec fn spec_spend(&self) -> u64 {
        self.spend
    }

    pub open spec fn spec_value(&self) -> nat {
        self.value@
    }

    pub open spec fn wf(&self) -> bool {
        self.value.wf()
    }

    pub fn new(owner: u64, spend: u64, value: U256) -> (r: Self)
        ensures
            r.spec_owner() == owner,
            r.spec_spend() == spend,
            r.spec_value() == value@,
            r.wf() == value.wf(),
    {
        Self { owner, spend, value }
    }
}

} // verus!
