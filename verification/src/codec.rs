use crate::frc20::{skeys_sorted, LedgerModel};
use crate::standard_token::{entries_wf, tmodel, StandardToken};
use crate::u256::{canonical, le_val, nat_limbs, pow256, tail_val, U256};
use crate::u256::{
    lemma_le_val_upper, lemma_pow256_mono, lemma_tail_val_unfold, lemma_tail_val_zero,
};
use vstd::arithmetic::div_mod::lemma_fundamental_div_mod;
use vstd::prelude::*;
use vstd::utf8::{decode_utf8, encode_utf8, valid_utf8};

verus! {

/// The `n` low-order base-256 digits of a value, least significant first.
pub open spec fn le_bytes(x: nat, n: nat) -> Seq<u8>
    decreases n,
{
    if n == 0 {
        Seq::empty()
    } else {
        seq![(x % 256) as u8] + le_bytes(x / 256, (n - 1) as nat)
    }
}

/// A byte string prefixed with its length as eight little-endian bytes.
pub open spec fn lenb(b: Seq<u8>) -> Seq<u8> {
    le_bytes(b.len(), 8) + b
}

/// An amount on the wire: its canonical little-endian digits, length-prefixed.
pub open spec fn enc_amount(v: nat) -> Seq<u8> {
    lenb(nat_limbs(v))
}

/// A character string on the wire: its UTF-8 bytes, length-prefixed.
pub open spec fn enc_str_field(s: Seq<char>) -> Seq<u8> {
    lenb(encode_utf8(s))
}

/// A table on the wire: each entry is a sixteen-byte key and an amount, in
/// table order.
pub open spec fn enc_entries(s: Seq<(u128, nat)>) -> Seq<u8>
    decreases s.len(),
{
    if s.len() == 0 {
        Seq::empty()
    } else {
        le_bytes(s[0].0 as nat, 16) + enc_amount(s[0].1) + enc_entries(s.drop_first())
    }
}

/// The serialized ledger state: an ordered record of name, symbol, decimals,
/// total supply, balances and allowances. The field order is part of the
/// wire contract.
pub open spec fn enc_model(m: LedgerModel) -> Seq<u8> {
    enc_str_field(m.name) + enc_str_field(m.symbol) + seq![m.decimals] + enc_amount(
        m.total_supply,
    ) + le_bytes(m.balances.len(), 8) + enc_entries(m.balances) + le_bytes(m.allowances.len(), 8)
        + enc_entries(m.allowances)
}

/// The encoder stays within the length prefixes: every piece is shorter than
/// what eight little-endian bytes can say.
pub open spec fn model_bounded(m: LedgerModel) -> bool {
    &&& encode_utf8(m.name).len() < pow256(8)
    &&& encode_utf8(m.symbol).len() < pow256(8)
    &&& nat_limbs(m.total_supply).len() < pow256(8)
    &&& m.balances.len() < pow256(8)
    &&& m.allowances.len() < pow256(8)
    &&& forall|i: int|
        0 <= i < m.balances.len() ==> nat_limbs((#[trigger] m.balances[i]).1).len() < pow256(8)
    &&& forall|i: int|
        0 <= i < m.allowances.len() ==> nat_limbs((#[trigger] m.allowances[i]).1).len() < pow256(
            8,
        )
}

// ----- the decoder, over the remaining byte string -----

/// Reads a length-prefixed byte string; returns it and the rest.
pub open spec fn dec_bytes(b: Seq<u8>) -> Option<(Seq<u8>, Seq<u8>)> {
    if 8 <= b.len() {
        let n = le_val(b.subrange(0, 8)) as int;
        if 8 + n <= b.len() {
            Some((b.subrange(8, 8 + n), b.skip(8 + n)))
        } else {
            None
        }
    } else {
        None
    }
}

/// Reads an eight-byte count.
pub open spec fn dec_count(b: Seq<u8>) -> Option<(nat, Seq<u8>)> {
    if 8 <= b.len() {
        Some((le_val(b.subrange(0, 8)), b.skip(8)))
    } else {
        None
    }
}

/// Reads a sixteen-byte table key.
pub open spec fn dec_key(b: Seq<u8>) -> Option<(u128, Seq<u8>)> {
    if 16 <= b.len() {
        Some((le_val(b.subrange(0, 16)) as u128, b.skip(16)))
    } else {
        None
    }
}

/// Reads an amount; the digit string must be canonical.
pub open spec fn dec_amount(b: Seq<u8>) -> Option<(nat, Seq<u8>)> {
    match dec_bytes(b) {
        Some((limbs, rest)) => if canonical(limbs) {
            Some((le_val(limbs), rest))
        } else {
            None
        },
        None => None,
    }
}

/// Reads a character string; the bytes must be valid UTF-8.
pub open spec fn dec_str_field(b: Seq<u8>) -> Option<(Seq<char>, Seq<u8>)> {
    match dec_bytes(b) {
        Some((bytes, rest)) => if valid_utf8(bytes) {
            Some((decode_utf8(bytes), rest))
        } else {
            None
        },
        None => None,
    }
}

/// Reads `cnt` table entries.
pub open spec fn dec_entries(b: Seq<u8>, cnt: nat) -> Option<(Seq<(u128, nat)>, Seq<u8>)>
    decreases cnt,
{
    if cnt == 0 {
        Some((Seq::empty(), b))
    } else {
        match dec_key(b) {
            Some((k, b1)) => match dec_amount(b1) {
                Some((v, b2)) => match dec_entries(b2, (cnt - 1) as nat) {
                    Some((rest, b3)) => Some((seq![(k, v)] + rest, b3)),
                    None => None,
                },
                None => None,
            },
            None => None,
        }
    }
}

/// Reads a whole serialized ledger state: all fields in order, both tables
/// key-ordered, and nothing left over.
pub open spec fn dec_model(b: Seq<u8>) -> Option<LedgerModel> {
    match dec_str_field(b) {
        Some((name, b1)) => match dec_str_field(b1) {
            Some((symbol, b2)) => if b2.len() < 1 {
                None
            } else {
                let decimals = b2[0];
                match dec_amount(b2.skip(1)) {
                    Some((supply, b3)) => match dec_count(b3) {
                        Some((bcnt, b4)) => match dec_entries(b4, bcnt) {
                            Some((balances, b5)) => match dec_count(b5) {
                                Some((acnt, b6)) => match dec_entries(b6, acnt) {
                                    Some((allowances, b7)) => if b7.len() == 0 && skeys_sorted(
                                        balances,
                                    ) && skeys_sorted(allowances) {
                                        Some(
                                            LedgerModel {
                                                name,
                                                symbol,
                                                decimals,
                                                total_supply: supply,
                                                balances,
                                                allowances,
                                            },
                                        )
                                    } else {
                                        None
                                    },
                                    None => None,
                                },
                                None => None,
                            },
                            None => None,
                        },
                        None => None,
                    },
                    None => None,
                }
            },
            None => None,
        },
        None => None,
    }
}

// ----- facts about the wire forms -----

pub proof fn lemma_le_bytes_len(x: nat, n: nat)
    ensures
        le_bytes(x, n).len() == n,
    decreases n,
{
    if n > 0 {
        lemma_le_bytes_len(x / 256, (n - 1) as nat);
    }
}

pub proof fn lemma_le_bytes_val(x: nat, n: nat)
    requires
        x < pow256(n),
    ensures
        le_val(le_bytes(x, n)) == x,
    decreases n,
{
    if n == 0 {
        assert(le_val(Seq::<u8>::empty()) == 0);
    } else {
        lemma_fundamental_div_mod(x as int, 256);
        assert(x / 256 < pow256((n - 1) as nat)) by {
            assert(x < 256 * pow256((n - 1) as nat));
            assert(256 * (x / 256) <= x);
        }
        lemma_le_bytes_val(x / 256, (n - 1) as nat);
        let s = le_bytes(x, n);
        assert(s.drop_first() =~= le_bytes(x / 256, (n - 1) as nat));
        assert(s[0] == (x % 256) as u8);
        assert(s.len() > 0) by {
            lemma_le_bytes_len(x, n);
        }
        assert(le_val(s) == (s[0] + 256 * le_val(s.drop_first())) as nat);
    }
}

/// The canonical digit string of a value reads back as that value.
pub proof fn lemma_nat_limbs_val(n: nat)
    ensures
        le_val(nat_limbs(n)) == n,
        canonical(nat_limbs(n)),
    decreases n,
{
    if n == 0 {
        assert(nat_limbs(0) =~= Seq::<u8>::empty());
        assert(le_val(Seq::<u8>::empty()) == 0);
    } else {
        lemma_fundamental_div_mod(n as int, 256);
        lemma_nat_limbs_val(n / 256);
        let s = nat_limbs(n);
        assert(s == seq![(n % 256) as u8] + nat_limbs(n / 256));
        assert(s.drop_first() =~= nat_limbs(n / 256));
        assert(s[0] == (n % 256) as u8);
        assert(le_val(s) == (s[0] + 256 * le_val(s.drop_first())) as nat);
        if nat_limbs(n / 256).len() == 0 {
            assert(n / 256 == 0) by {
                if n / 256 != 0 {
                    assert(nat_limbs(n / 256).len() > 0);
                }
            }
            assert(s.last() == s[0]);
            assert(n % 256 == n);
        } else {
            assert(s.last() == nat_limbs(n / 256).last());
        }
    }
}

pub proof fn lemma_pow256_vals()
    ensures
        pow256(8) == 0x10000000000000000,
        pow256(16) == 0x100000000000000000000000000000000,
{
    assert(pow256(0) == 1);
    assert(pow256(1) == 256);
    assert(pow256(2) == 0x10000);
    assert(pow256(3) == 0x1000000);
    assert(pow256(4) == 0x100000000);
    assert(pow256(5) == 0x10000000000);
    assert(pow256(6) == 0x1000000000000);
    assert(pow256(7) == 0x100000000000000);
    assert(pow256(8) == 0x10000000000000000);
    assert(pow256(9) == 0x1000000000000000000);
    assert(pow256(10) == 0x100000000000000000000);
    assert(pow256(11) == 0x10000000000000000000000);
    assert(pow256(12) == 0x1000000000000000000000000);
    assert(pow256(13) == 0x100000000000000000000000000);
    assert(pow256(14) == 0x10000000000000000000000000000);
    assert(pow256(15) == 0x1000000000000000000000000000000);
    assert(pow256(16) == 0x100000000000000000000000000000000);
}

// ----- the decoder undoes the encoder, piece by piece -----

pub proof fn lemma_dec_bytes(data: Seq<u8>, rest: Seq<u8>)
    requires
        data.len() < pow256(8),
    ensures
        dec_bytes(lenb(data) + rest) == Some((data, rest)),
{
    let b = lenb(data) + rest;
    lemma_le_bytes_len(data.len(), 8);
    lemma_le_bytes_val(data.len(), 8);
    assert(b.subrange(0, 8) =~= le_bytes(data.len(), 8));
    assert(le_val(b.subrange(0, 8)) == data.len());
    assert(b.subrange(8, 8 + data.len() as int) =~= data);
    assert(b.skip(8 + data.len() as int) =~= rest);
}

pub proof fn lemma_dec_count(n: nat, rest: Seq<u8>)
    requires
        n < pow256(8),
    ensures
        dec_count(le_bytes(n, 8) + rest) == Some((n, rest)),
{
    let b = le_bytes(n, 8) + rest;
    lemma_le_bytes_len(n, 8);
    lemma_le_bytes_val(n, 8);
    assert(b.subrange(0, 8) =~= le_bytes(n, 8));
    assert(b.skip(8) =~= rest);
}

pub proof fn lemma_dec_key(k: u128, rest: Seq<u8>)
    ensures
        dec_key(le_bytes(k as nat, 16) + rest) == Some((k, rest)),
{
    let b = le_bytes(k as nat, 16) + rest;
    lemma_pow256_vals();
    lemma_le_bytes_len(k as nat, 16);
    lemma_le_bytes_val(k as nat, 16);
    assert(b.subrange(0, 16) =~= le_bytes(k as nat, 16));
    assert(b.skip(16) =~= rest);
}

pub proof fn lemma_dec_amount(v: nat, rest: Seq<u8>)
    requires
        nat_limbs(v).len() < pow256(8),
    ensures
        dec_amount(enc_amount(v) + rest) == Some((v, rest)),
{
    lemma_nat_limbs_val(v);
    assert(enc_amount(v) + rest =~= lenb(nat_limbs(v)) + rest);
    lemma_dec_bytes(nat_limbs(v), rest);
}

pub proof fn lemma_dec_str_field(s: Seq<char>, rest: Seq<u8>)
    requires
        encode_utf8(s).len() < pow256(8),
    ensures
        dec_str_field(enc_str_field(s) + rest) == Some((s, rest)),
{
    vstd::utf8::encode_utf8_valid_utf8(s);
    vstd::utf8::encode_utf8_decode_utf8(s);
    assert(enc_str_field(s) + rest =~= lenb(encode_utf8(s)) + rest);
    lemma_dec_bytes(encode_utf8(s), rest);
}

pub proof fn lemma_dec_entries(s: Seq<(u128, nat)>, rest: Seq<u8>)
    requires
        forall|i: int| 0 <= i < s.len() ==> nat_limbs((#[trigger] s[i]).1).len() < pow256(8),
    ensures
        dec_entries(enc_entries(s) + rest, s.len()) == Some((s, rest)),
    decreases s.len(),
{
    if s.len() == 0 {
        assert(enc_entries(s) + rest =~= rest);
        assert(dec_entries(rest, 0) == Some((Seq::<(u128, nat)>::empty(), rest)));
        assert(s =~= Seq::<(u128, nat)>::empty());
    } else {
        let t = s.drop_first();
        let k = s[0].0;
        let v = s[0].1;
        let b = enc_entries(s) + rest;
        let tail_bytes = enc_entries(t) + rest;
        assert(b =~= le_bytes(k as nat, 16) + (enc_amount(v) + tail_bytes));
        lemma_dec_key(k, enc_amount(v) + tail_bytes);
        lemma_dec_amount(v, tail_bytes);
        assert(forall|i: int| 0 <= i < t.len() ==> nat_limbs((#[trigger] t[i]).1).len() < pow256(
            8,
        )) by {
            assert(forall|i: int| 0 <= i < t.len() ==> t[i] == s[i + 1]);
        }
        lemma_dec_entries(t, rest);
        assert(dec_entries(b, s.len()) == Some((seq![(k, v)] + t, rest)));
        assert(seq![(k, v)] + t =~= s);
    }
}

/// Decoding undoes encoding: a serialized well-formed ledger state reads
/// back as exactly the state that was written.
#[verifier::rlimit(100)]
pub proof fn lemma_dec_enc(m: LedgerModel)
    requires
        model_bounded(m),
        skeys_sorted(m.balances),
        skeys_sorted(m.allowances),
    ensures
        dec_model(enc_model(m)) == Some(m),
{
    let e_name = enc_str_field(m.name);
    let e_sym = enc_str_field(m.symbol);
    let e_dec = seq![m.decimals];
    let e_sup = enc_amount(m.total_supply);
    let e_bcnt = le_bytes(m.balances.len(), 8);
    let e_bal = enc_entries(m.balances);
    let e_acnt = le_bytes(m.allowances.len(), 8);
    let e_alw = enc_entries(m.allowances);
    let b = enc_model(m);
    let r7 = Seq::<u8>::empty();
    let r6 = e_alw;
    let r5 = e_acnt + e_alw;
    let r4 = e_bal + r5;
    let r3 = e_sup + (e_bcnt + r4);
    let r2 = e_dec + r3;
    let r1 = e_sym + r2;
    assert(r6 =~= e_alw + r7);
    seq_assoc(e_acnt, e_bal, r5);
    seq_assoc(e_bcnt + e_bal, e_acnt, e_alw);
    seq_assoc(e_bcnt, e_bal, r5);
    assert(b == (((((e_name + e_sym) + e_dec) + e_sup) + e_bcnt) + e_bal) + e_acnt + e_alw);
    seq_assoc((((((e_name + e_sym) + e_dec) + e_sup) + e_bcnt) + e_bal), e_acnt, e_alw);
    seq_assoc(((((e_name + e_sym) + e_dec) + e_sup) + e_bcnt), e_bal, r5);
    seq_assoc((((e_name + e_sym) + e_dec) + e_sup), e_bcnt, r4);
    seq_assoc(((e_name + e_sym) + e_dec), e_sup, e_bcnt + r4);
    seq_assoc((e_name + e_sym), e_dec, r3);
    seq_assoc(e_name, e_sym, r2);
    assert(b == e_name + r1);
    lemma_dec_str_field(m.name, r1);
    lemma_dec_str_field(m.symbol, r2);
    assert(r2.len() >= 1);
    assert(r2[0] == m.decimals);
    assert(r2.skip(1) =~= r3);
    lemma_dec_amount(m.total_supply, e_bcnt + r4);
    lemma_dec_count(m.balances.len(), r4);
    lemma_dec_entries(m.balances, r5);
    lemma_dec_count(m.allowances.len(), r6);
    lemma_dec_entries(m.allowances, r7);
    assert(dec_model(b) == Some(
        LedgerModel {
            name: m.name,
            symbol: m.symbol,
            decimals: m.decimals,
            total_supply: m.total_supply,
            balances: m.balances,
            allowances: m.allowances,
        },
    ));
    assert(m == (LedgerModel {
        name: m.name,
        symbol: m.symbol,
        decimals: m.decimals,
        total_supply: m.total_supply,
        balances: m.balances,
        allowances: m.allowances,
    }));
}

// ----- executable encoder -----

/// Appends the `n` low-order base-256 digits of `x`.
fn push_le(out: &mut Vec<u8>, x: u128, n: usize)
    ensures
        final(out)@ == old(out)@ + le_bytes(x as nat, n as nat),
{
    let mut cur: u128 = x;
    let mut j: usize = 0;
    while j < n
        invariant
            j <= n,
            old(out)@ + le_bytes(x as nat, n as nat) =~= out@ + le_bytes(
                cur as nat,
                (n - j) as nat,
            ),
        decreases n - j,
    {
        let d: u8 = (cur % 256) as u8;
        let ghost prev = out@;
        out.push(d);
        proof {
            assert(le_bytes(cur as nat, (n - j) as nat) =~= seq![d] + le_bytes(
                (cur / 256) as nat,
                (n - j - 1) as nat,
            ));
            assert(prev + (seq![d] + le_bytes((cur / 256) as nat, (n - j - 1) as nat)) =~= out@
                + le_bytes((cur / 256) as nat, (n - j - 1) as nat));
        }
        cur = cur / 256;
        j += 1;
    }
    proof {
        assert(le_bytes(cur as nat, 0) =~= Seq::<u8>::empty());
        assert(out@ + Seq::<u8>::empty() =~= out@);
    }
}

/// Appends a byte string copied from a slice.
fn push_slice(out: &mut Vec<u8>, data: &[u8])
    ensures
        final(out)@ == old(out)@ + data@,
{
    let n: usize = data.len();
    let mut j: usize = 0;
    while j < n
        invariant
            j <= n,
            n == data@.len(),
            out@ =~= old(out)@ + data@.take(j as int),
        decreases n - j,
    {
        out.push(*vstd::slice::slice_index_get(data, j));
        j += 1;
    }
    proof {
        assert(data@.take(n as int) =~= data@);
    }
}

/// Serializes a ledger state in the canonical record layout.
pub fn encode(t: &StandardToken) -> (r: Vec<u8>)
    requires
        t.token_wf(),
    ensures
        r@ == enc_model(t@),
        model_bounded(t@),
{
    proof {
        lemma_pow256_vals();
    }
    let mut out: Vec<u8> = Vec::new();
    push_str_field(&mut out, &t.name);
    push_str_field(&mut out, &t.symbol);
    out.push(t.decimals);
    push_amount(&mut out, &t.total_supply);
    push_le(&mut out, t.balances.len() as u128, 8);
    push_entries(&mut out, &t.balances);
    push_le(&mut out, t.allowed.len() as u128, 8);
    push_entries(&mut out, &t.allowed);
    proof {
        assert(seq![t.decimals] =~= seq![t@.decimals]);
        assert(out@ =~= enc_model(t@));
        assert forall|i: int| 0 <= i < t@.balances.len() implies nat_limbs(
            (#[trigger] t@.balances[i]).1,
        ).len() < pow256(8) by {
            assert(t@.balances[i].1 == t.balances@[i].1@);
            assert(t.balances@[i].1.wf());
            t.balances@[i].1.lemma_limbs_are_canonical();
        }
        assert forall|i: int| 0 <= i < t@.allowances.len() implies nat_limbs(
            (#[trigger] t@.allowances[i]).1,
        ).len() < pow256(8) by {
            assert(t@.allowances[i].1 == t.allowed@[i].1@);
            assert(t.allowed@[i].1.wf());
            t.allowed@[i].1.lemma_limbs_are_canonical();
        }
        t.total_supply.lemma_limbs_are_canonical();
    }
    out
}

/// Appends a length-prefixed character string as UTF-8.
fn push_str_field(out: &mut Vec<u8>, s: &String)
    ensures
        final(out)@ == old(out)@ + enc_str_field(s@),
        encode_utf8(s@).len() < pow256(8),
{
    proof {
        lemma_pow256_vals();
    }
    let bytes: &[u8] = s.as_str().as_bytes();
    push_le(out, bytes.len() as u128, 8);
    push_slice(out, bytes);
    proof {
        assert(final(out)@ =~= old(out)@ + (le_bytes(bytes@.len(), 8) + bytes@));
    }
}

/// Appends a length-prefixed canonical amount.
fn push_amount(out: &mut Vec<u8>, v: &U256)
    requires
        v.wf(),
    ensures
        final(out)@ == old(out)@ + enc_amount(v@),
        nat_limbs(v@).len() < pow256(8),
{
    proof {
        lemma_pow256_vals();
        v.lemma_limbs_are_canonical();
    }
    let limbs = v.to_bytes_le();
    push_le(out, limbs.len() as u128, 8);
    push_slice(out, limbs.as_slice());
    proof {
        assert(limbs@ == nat_limbs(v@));
        assert(final(out)@ =~= old(out)@ + (le_bytes(nat_limbs(v@).len(), 8) + nat_limbs(v@)));
    }
}

/// Appends a table, entry by entry in table order.
fn push_entries(out: &mut Vec<u8>, entries: &Vec<(u128, U256)>)
    requires
        entries_wf(entries@),
    ensures
        final(out)@ == old(out)@ + enc_entries(tmodel(entries@)),
{
    let n: usize = entries.len();
    let mut j: usize = 0;
    while j < n
        invariant
            j <= n,
            n == entries@.len(),
            entries_wf(entries@),
            out@ =~= old(out)@ + enc_entries(tmodel(entries@.take(j as int))),
        decreases n - j,
    {
        let e = &entries[j];
        push_le(out, e.0, 16);
        push_amount(out, &e.1);
        proof {
            lemma_enc_entries_push(tmodel(entries@.take(j as int)), (e.0, e.1@));
            assert(tmodel(entries@.take(j + 1)) =~= tmodel(entries@.take(j as int)).push(
                (e.0, e.1@),
            ));
        }
        j += 1;
    }
    proof {
        assert(entries@.take(n as int) =~= entries@);
    }
}

/// Appending one entry to a table appends its wire form.
pub proof fn lemma_enc_entries_push(s: Seq<(u128, nat)>, e: (u128, nat))
    ensures
        enc_entries(s.push(e)) == enc_entries(s) + le_bytes(e.0 as nat, 16) + enc_amount(e.1),
    decreases s.len(),
{
    if s.len() == 0 {
        assert(s.push(e).drop_first() =~= Seq::<(u128, nat)>::empty());
        assert(s.push(e)[0] == e);
        assert(enc_entries(Seq::<(u128, nat)>::empty()) =~= Seq::<u8>::empty());
        assert(enc_entries(s) =~= Seq::<u8>::empty());
        assert(enc_entries(s.push(e)) =~= enc_entries(s) + le_bytes(e.0 as nat, 16) + enc_amount(
            e.1,
        ));
    } else {
        let t = s.drop_first();
        assert(s.push(e).drop_first() =~= t.push(e));
        assert(s.push(e)[0] == s[0]);
        lemma_enc_entries_push(t, e);
        let head = le_bytes(s[0].0 as nat, 16) + enc_amount(s[0].1);
        let tail_e = le_bytes(e.0 as nat, 16);
        assert(enc_entries(s.push(e)) == head + enc_entries(t.push(e)));
        assert(enc_entries(t.push(e)) == enc_entries(t) + tail_e + enc_amount(e.1));
        seq_assoc(head, enc_entries(t) + tail_e, enc_amount(e.1));
        seq_assoc(head, enc_entries(t), tail_e);
        assert(enc_entries(s) == head + enc_entries(t));
        assert(enc_entries(s.push(e)) == enc_entries(s) + le_bytes(e.0 as nat, 16) + enc_amount(
            e.1,
        ));
    }
}

proof fn seq_assoc(a: Seq<u8>, b: Seq<u8>, c: Seq<u8>)
    ensures
        (a + b) + c == a + (b + c),
{
    assert((a + b) + c =~= a + (b + c));
}

// ----- executable decoder -----

/// Relies on String::from_utf8: it succeeds exactly on valid UTF-8 and
/// returns the string whose UTF-8 encoding is the given bytes.
#[verifier::external_body]
fn string_from_utf8(v: Vec<u8>) -> (r: Option<String>)
    ensures
        match r {
            Some(s) => encode_utf8(s@) == v@,
            None => !valid_utf8(v@),
        },
{
    match String::from_utf8(v) {
        Ok(s) => Some(s),
        Err(_) => None,
    }
}

/// The bytes of `b` from `from` to `to`.
fn copy_range(b: &Vec<u8>, from: usize, to: usize) -> (r: Vec<u8>)
    requires
        from <= to <= b@.len(),
    ensures
        r@ == b@.subrange(from as int, to as int),
{
    let mut r: Vec<u8> = Vec::new();
    let mut j: usize = from;
    while j < to
        invariant
            from <= j <= to <= b@.len(),
            r@ =~= b@.subrange(from as int, j as int),
        decreases to - j,
    {
        r.push(b[j]);
        j += 1;
    }
    r
}

/// Reads `n` little-endian bytes at `pos` as one value.
fn rd_le(b: &Vec<u8>, pos: usize, n: usize) -> (r: u128)
    requires
        pos + n <= b@.len(),
        n <= 16,
    ensures
        r == le_val(b@.subrange(pos as int, pos + n as int)),
{
    proof {
        lemma_pow256_vals();
        vstd::std_specs::vec::axiom_spec_len(b);
    }
    let ghost window = b@.subrange(pos as int, pos + n as int);
    let mut acc: u128 = 0;
    let mut t: usize = 0;
    while t < n
        invariant
            t <= n <= 16,
            pos + n <= b@.len(),
            b@.len() <= usize::MAX,
            window == b@.subrange(pos as int, pos + n as int),
            acc == tail_val(window, n - t),
            acc < pow256(t as nat),
        decreases n - t,
    {
        let idx: usize = pos + n - 1 - t;
        let d: u8 = b[idx];
        proof {
            lemma_tail_val_unfold(window, n - 1 - t);
            assert(window[n - 1 - t] == b@[idx as int]);
            if n - t < window.len() {
                lemma_le_val_upper(window.skip(n - t));
            }
            lemma_pow256_mono((t + 1) as nat, 16);
            lemma_pow256_vals();
        }
        acc = acc * 256 + d as u128;
        t += 1;
    }
    proof {
        lemma_tail_val_zero(window);
    }
    acc
}

/// Reads a length-prefixed byte string at `pos`.
fn rd_bytes(b: &Vec<u8>, pos: usize) -> (r: Option<(Vec<u8>, usize)>)
    requires
        pos <= b@.len(),
    ensures
        match r {
            Some(dq) => ({
                &&& dec_bytes(b@.skip(pos as int)) == Some((dq.0@, b@.skip(dq.1 as int)))
                &&& pos <= dq.1 <= b@.len()
            }),
            None => dec_bytes(b@.skip(pos as int)) is None,
        },
{
    proof {
        lemma_pow256_vals();
    }
    if b.len() - pos < 8 {
        return None;
    }
    let n128 = rd_le(b, pos, 8);
    proof {
        assert(b@.skip(pos as int).subrange(0, 8) =~= b@.subrange(pos as int, pos + 8));
        lemma_le_val_upper(b@.subrange(pos as int, pos + 8));
        lemma_pow256_mono(8, 16);
    }
    let rem: usize = b.len() - pos - 8;
    if n128 > rem as u128 {
        return None;
    }
    let n: usize = n128 as usize;
    let data = copy_range(b, pos + 8, pos + 8 + n);
    proof {
        assert(b@.skip(pos as int).subrange(8, 8 + n as int) =~= b@.subrange(
            pos + 8,
            pos + 8 + n as int,
        ));
        assert(b@.skip(pos as int).skip(8 + n as int) =~= b@.skip(pos + 8 + n as int));
    }
    Some((data, pos + 8 + n))
}

/// Reads a length-prefixed character string at `pos`.
fn rd_str(b: &Vec<u8>, pos: usize) -> (r: Option<(String, usize)>)
    requires
        pos <= b@.len(),
    ensures
        match r {
            Some(sq) => ({
                &&& dec_str_field(b@.skip(pos as int)) == Some((sq.0@, b@.skip(sq.1 as int)))
                &&& pos <= sq.1 <= b@.len()
            }),
            None => dec_str_field(b@.skip(pos as int)) is None,
        },
{
    match rd_bytes(b, pos) {
        None => None,
        Some((data, q)) => {
            let ghost bytes = data@;
            match string_from_utf8(data) {
                Some(s) => {
                    proof {
                        vstd::utf8::encode_utf8_valid_utf8(s@);
                        vstd::utf8::encode_utf8_decode_utf8(s@);
                        assert(valid_utf8(bytes));
                        assert(decode_utf8(bytes) == s@);
                    }
                    Some((s, q))
                },
                None => None,
            }
        },
    }
}

/// Reads a length-prefixed canonical amount at `pos`.
fn rd_amount(b: &Vec<u8>, pos: usize) -> (r: Option<(U256, usize)>)
    requires
        pos <= b@.len(),
    ensures
        match r {
            Some(aq) => ({
                &&& aq.0.wf()
                &&& dec_amount(b@.skip(pos as int)) == Some((aq.0@, b@.skip(aq.1 as int)))
                &&& pos <= aq.1 <= b@.len()
            }),
            None => dec_amount(b@.skip(pos as int)) is None,
        },
{
    match rd_bytes(b, pos) {
        None => None,
        Some((data, q)) => {
            let dl = data.len();
            if dl > 0 && data[dl - 1] == 0 {
                proof {
                    assert(data@.last() == 0);
                    assert(!canonical(data@));
                }
                None
            } else {
                proof {
                    assert(canonical(data@));
                }
                let a = U256::from_bytes_le(data.as_slice());
                Some((a, q))
            }
        },
    }
}

/// Reads an eight-byte count at `pos`.
fn rd_count(b: &Vec<u8>, pos: usize) -> (r: Option<(u64, usize)>)
    requires
        pos <= b@.len(),
    ensures
        match r {
            Some(cq) => ({
                &&& dec_count(b@.skip(pos as int)) == Some((cq.0 as nat, b@.skip(cq.1 as int)))
                &&& pos <= cq.1 <= b@.len()
            }),
            None => dec_count(b@.skip(pos as int)) is None,
        },
{
    proof {
        lemma_pow256_vals();
    }
    if b.len() - pos < 8 {
        return None;
    }
    let n128 = rd_le(b, pos, 8);
    proof {
        assert(b@.skip(pos as int).subrange(0, 8) =~= b@.subrange(pos as int, pos + 8));
        lemma_le_val_upper(b@.subrange(pos as int, pos + 8));
        assert(b@.skip(pos as int).skip(8) =~= b@.skip(pos + 8));
    }
    Some((n128 as u64, pos + 8))
}

/// Reads a sixteen-byte table key at `pos`.
fn rd_key(b: &Vec<u8>, pos: usize) -> (r: Option<(u128, usize)>)
    requires
        pos <= b@.len(),
    ensures
        match r {
            Some(kq) => ({
                &&& dec_key(b@.skip(pos as int)) == Some((kq.0, b@.skip(kq.1 as int)))
                &&& pos <= kq.1 <= b@.len()
            }),
            None => dec_key(b@.skip(pos as int)) is None,
        },
{
    proof {
        lemma_pow256_vals();
    }
    if b.len() - pos < 16 {
        return None;
    }
    let k = rd_le(b, pos, 16);
    proof {
        assert(b@.skip(pos as int).subrange(0, 16) =~= b@.subrange(pos as int, pos + 16));
        lemma_le_val_upper(b@.subrange(pos as int, pos + 16));
        assert(b@.skip(pos as int).skip(16) =~= b@.skip(pos + 16));
    }
    Some((k, pos + 16))
}

/// Reads `cnt` table entries at `pos`.
fn rd_entries(b: &Vec<u8>, pos: usize, cnt: u64) -> (r: Option<(Vec<(u128, U256)>, usize)>)
    requires
        pos <= b@.len(),
    ensures
        match r {
            Some(eq) => ({
                &&& dec_entries(b@.skip(pos as int), cnt as nat) == Some(
                    (tmodel(eq.0@), b@.skip(eq.1 as int)),
                )
                &&& entries_wf(eq.0@)
                &&& pos <= eq.1 <= b@.len()
            }),
            None => dec_entries(b@.skip(pos as int), cnt as nat) is None,
        },
    decreases cnt,
{
    if cnt == 0 {
        proof {
            assert(tmodel(Seq::<(u128, U256)>::empty()) =~= Seq::<(u128, nat)>::empty());
        }
        return Some((Vec::new(), pos));
    }
    match rd_key(b, pos) {
        None => None,
        Some((k, p1)) => match rd_amount(b, p1) {
            None => None,
            Some((v, p2)) => match rd_entries(b, p2, cnt - 1) {
                None => None,
                Some((rest0, p3)) => {
                    let mut rest = rest0;
                    let ghost prev = rest@;
                    let ghost vv = v@;
                    rest.insert(0, (k, v));
                    proof {
                        assert(rest@.drop_first() =~= prev);
                        assert(rest@[0].0 == k && rest@[0].1@ == vv);
                        assert(tmodel(rest@).drop_first() =~= tmodel(prev));
                        assert(tmodel(rest@) =~= seq![(k, vv)] + tmodel(prev));
                    }
                    Some((rest, p3))
                },
            },
        },
    }
}

/// Whether the table keys strictly increase.
fn check_sorted(entries: &Vec<(u128, U256)>) -> (r: bool)
    ensures
        r == skeys_sorted(tmodel(entries@)),
{
    let n = entries.len();
    if n <= 1 {
        proof {
            assert(skeys_sorted(tmodel(entries@)));
        }
        return true;
    }
    let mut j: usize = 0;
    while j < n - 1
        invariant
            n == entries@.len(),
            n >= 1,
            j <= n - 1,
            forall|i: int| 0 <= i < j ==> (#[trigger] entries@[i]).0 < entries@[i + 1].0,
        decreases n - j,
    {
        if entries[j].0 >= entries[j + 1].0 {
            proof {
                let m = tmodel(entries@);
                assert(m[j as int].0 == entries@[j as int].0);
                assert(m[j + 1].0 == entries@[j + 1].0);
                assert(!skeys_sorted(m)) by {
                    if skeys_sorted(m) {
                        assert(m[j as int].0 < m[j + 1].0);
                    }
                }
            }
            return false;
        }
        j += 1;
    }
    proof {
        lemma_adjacent_sorted(tmodel(entries@));
    }
    true
}

/// Adjacent order over a whole table gives the full key order.
proof fn lemma_adjacent_sorted(s: Seq<(u128, nat)>)
    requires
        forall|i: int| 0 <= i < s.len() - 1 ==> (#[trigger] s[i]).0 < s[i + 1].0,
    ensures
        skeys_sorted(s),
{
    assert forall|i: int, j: int| 0 <= i < j < s.len() implies s[i].0 < s[j].0 by {
        lemma_key_chain(s, i, j);
    }
}

proof fn lemma_key_chain(s: Seq<(u128, nat)>, i: int, j: int)
    requires
        forall|x: int| 0 <= x < s.len() - 1 ==> (#[trigger] s[x]).0 < s[x + 1].0,
        0 <= i < j < s.len(),
    ensures
        s[i].0 < s[j].0,
    decreases j - i,
{
    if j == i + 1 {
        assert(s[i].0 < s[i + 1].0);
    } else {
        lemma_key_chain(s, i, j - 1);
        assert(s[j - 1].0 < s[j].0);
    }
}

/// Reads a whole serialized ledger state; the result is well formed, and
/// decoding mirrors the wire grammar exactly: a byte string is refused
/// precisely when it is not a canonical serialization.
#[verifier::rlimit(100)]
pub fn decode(bytes: &Vec<u8>) -> (r: Option<StandardToken>)
    ensures
        match r {
            Some(t) => t.token_wf() && dec_model(bytes@) == Some(t@),
            None => dec_model(bytes@) is None,
        },
{
    proof {
        assert(bytes@.skip(0) =~= bytes@);
    }
    let r1 = rd_str(bytes, 0);
    if r1.is_none() {
        return None;
    }
    let (name, p1) = r1.unwrap();
    let r2 = rd_str(bytes, p1);
    if r2.is_none() {
        return None;
    }
    let (symbol, p2) = r2.unwrap();
    if p2 >= bytes.len() {
        proof {
            assert(bytes@.skip(p2 as int).len() < 1);
        }
        return None;
    }
    let decimals = bytes[p2];
    proof {
        assert(bytes@.skip(p2 as int)[0] == bytes@[p2 as int]);
        assert(bytes@.skip(p2 as int).skip(1) =~= bytes@.skip(p2 + 1));
    }
    let r3 = rd_amount(bytes, p2 + 1);
    if r3.is_none() {
        return None;
    }
    let (supply, p3) = r3.unwrap();
    let r4 = rd_count(bytes, p3);
    if r4.is_none() {
        return None;
    }
    let (bcnt, p4) = r4.unwrap();
    let r5 = rd_entries(bytes, p4, bcnt);
    if r5.is_none() {
        return None;
    }
    let (balances, p5) = r5.unwrap();
    let r6 = rd_count(bytes, p5);
    if r6.is_none() {
        return None;
    }
    let (acnt, p6) = r6.unwrap();
    let r7 = rd_entries(bytes, p6, acnt);
    if r7.is_none() {
        return None;
    }
    let (allowed, p7) = r7.unwrap();
    let ok_tail = p7 == bytes.len();
    let ok_bal = check_sorted(&balances);
    let ok_alw = check_sorted(&allowed);
    proof {
        if p7 == bytes@.len() {
            assert(bytes@.skip(p7 as int) =~= Seq::<u8>::empty());
        } else {
            assert(bytes@.skip(p7 as int).len() > 0);
        }
    }
    if !(ok_tail && ok_bal && ok_alw) {
        return None;
    }
    let t = StandardToken { name, symbol, decimals, total_supply: supply, balances, allowed };
    Some(t)
}

} // verus!
