use vstd::arithmetic::div_mod::{lemma_fundamental_div_mod, lemma_fundamental_div_mod_converse};
use vstd::prelude::*;
use vstd::string::StringExecFns;

verus! {

/// The value of a little-endian base-256 digit string.
pub open spec fn le_val(s: Seq<u8>) -> nat
    decreases s.len(),
{
    if s.len() == 0 {
        0
    } else {
        (s[0] + 256 * le_val(s.drop_first())) as nat
    }
}

/// The value of the digit string from position `i` on; zero past the end.
pub open spec fn tail_val(s: Seq<u8>, i: int) -> nat {
    if i < 0 {
        le_val(s)
    } else if i < s.len() {
        le_val(s.skip(i))
    } else {
        0
    }
}

/// The value of a big-endian base-256 digit string.
pub open spec fn be_val(s: Seq<u8>) -> nat
    decreases s.len(),
{
    if s.len() == 0 {
        0
    } else {
        (be_val(s.drop_last()) * 256 + s.last()) as nat
    }
}

/// The canonical little-endian digit string of a value: no trailing zero digit.
pub open spec fn nat_limbs(n: nat) -> Seq<u8>
    decreases n,
{
    if n == 0 {
        Seq::empty()
    } else {
        seq![(n % 256) as u8] + nat_limbs(n / 256)
    }
}

/// A digit string is canonical when it does not end in a zero digit.
pub open spec fn canonical(s: Seq<u8>) -> bool {
    s.len() == 0 || s.last() != 0
}

pub open spec fn pow256(n: nat) -> nat
    decreases n,
{
    if n == 0 {
        1
    } else {
        256 * pow256((n - 1) as nat)
    }
}

/// The decimal digit string of a value.
pub open spec fn dec_str(n: nat) -> Seq<char>
    decreases n,
{
    if n < 10 {
        seq![digit_char(n)]
    } else {
        dec_str(n / 10).push(digit_char(n % 10))
    }
}

pub open spec fn digit_char(d: nat) -> char {
    if d == 0 {
        '0'
    } else if d == 1 {
        '1'
    } else if d == 2 {
        '2'
    } else if d == 3 {
        '3'
    } else if d == 4 {
        '4'
    } else if d == 5 {
        '5'
    } else if d == 6 {
        '6'
    } else if d == 7 {
        '7'
    } else if d == 8 {
        '8'
    } else {
        '9'
    }
}

pub open spec fn is_digit_char(c: char) -> bool {
    c == '0' || c == '1' || c == '2' || c == '3' || c == '4' || c == '5' || c == '6' || c == '7'
        || c == '8' || c == '9'
}

pub open spec fn char_digit(c: char) -> nat {
    if c == '1' {
        1
    } else if c == '2' {
        2
    } else if c == '3' {
        3
    } else if c == '4' {
        4
    } else if c == '5' {
        5
    } else if c == '6' {
        6
    } else if c == '7' {
        7
    } else if c == '8' {
        8
    } else if c == '9' {
        9
    } else {
        0
    }
}

/// The value of a decimal digit string, most significant digit first.
pub open spec fn dec_val(s: Seq<char>) -> nat
    decreases s.len(),
{
    if s.len() == 0 {
        0
    } else {
        dec_val(s.drop_last()) * 10 + char_digit(s.last())
    }
}

pub proof fn lemma_tail_val_zero(s: Seq<u8>)
    ensures
        tail_val(s, 0) == le_val(s),
{
    if s.len() > 0 {
        assert(s.skip(0) =~= s);
    }
}

pub proof fn lemma_tail_val_unfold(s: Seq<u8>, i: int)
    requires
        0 <= i < s.len(),
    ensures
        tail_val(s, i) == s[i] + 256 * tail_val(s, i + 1),
{
    assert(s.skip(i).len() > 0);
    assert(s.skip(i)[0] == s[i]);
    assert(le_val(s.skip(i)) == (s.skip(i)[0] + 256 * le_val(s.skip(i).drop_first())) as nat);
    if i + 1 < s.len() {
        assert(s.skip(i).drop_first() =~= s.skip(i + 1));
    } else {
        assert(s.skip(i).drop_first() =~= Seq::<u8>::empty());
        assert(le_val(Seq::<u8>::empty()) == 0);
    }
}

pub proof fn lemma_le_val_drop_last_zero(s: Seq<u8>)
    requires
        s.len() > 0,
        s.last() == 0,
    ensures
        le_val(s) == le_val(s.drop_last()),
    decreases s.len(),
{
    if s.len() == 1 {
        assert(s[0] == 0);
        assert(le_val(s) == (s[0] + 256 * le_val(s.drop_first())) as nat);
        assert(s.drop_first() =~= Seq::<u8>::empty());
        assert(le_val(Seq::<u8>::empty()) == 0);
        assert(s.drop_last() =~= Seq::<u8>::empty());
    } else {
        let t = s.drop_first();
        assert(t.last() == s.last());
        lemma_le_val_drop_last_zero(t);
        assert(t.drop_last() =~= s.drop_last().drop_first());
        assert(s.drop_last().len() > 0);
        assert(s.drop_last()[0] == s[0]);
        assert(le_val(s.drop_last()) == (s[0] + 256 * le_val(s.drop_last().drop_first())) as nat);
    }
}

pub proof fn lemma_le_val_upper(s: Seq<u8>)
    ensures
        le_val(s) < pow256(s.len()),
    decreases s.len(),
{
    if s.len() > 0 {
        lemma_le_val_upper(s.drop_first());
    }
}

pub proof fn lemma_le_val_lower(s: Seq<u8>)
    requires
        s.len() > 0,
        s.last() != 0,
    ensures
        le_val(s) >= pow256((s.len() - 1) as nat),
    decreases s.len(),
{
    if s.len() == 1 {
        assert(s[0] == s.last());
    } else {
        let t = s.drop_first();
        assert(t.last() == s.last());
        lemma_le_val_lower(t);
    }
}

pub proof fn lemma_pow256_pos(n: nat)
    ensures
        pow256(n) >= 1,
    decreases n,
{
    if n > 0 {
        lemma_pow256_pos((n - 1) as nat);
    }
}

pub proof fn lemma_pow256_mono(m: nat, n: nat)
    requires
        m <= n,
    ensures
        pow256(m) <= pow256(n),
    decreases n,
{
    if m < n {
        lemma_pow256_mono(m, (n - 1) as nat);
        lemma_pow256_pos((n - 1) as nat);
    }
}

/// A canonical digit string is recovered from its value: `le_val` is
/// injective on canonical strings.
pub proof fn lemma_canonical_limbs(s: Seq<u8>)
    requires
        canonical(s),
    ensures
        nat_limbs(le_val(s)) == s,
    decreases s.len(),
{
    if s.len() == 0 {
        assert(nat_limbs(0) =~= Seq::<u8>::empty());
    } else {
        let t = s.drop_first();
        let n = le_val(s);
        assert(n == s[0] + 256 * le_val(t));
        if s.len() == 1 {
            assert(t =~= Seq::<u8>::empty());
            assert(le_val(Seq::<u8>::empty()) == 0);
            assert(n == s[0]);
            assert(s.last() == s[0]);
            lemma_fundamental_div_mod_converse(n as int, 256, 0, s[0] as int);
            assert(n % 256 == s[0] && n / 256 == 0);
            assert(nat_limbs(0) =~= Seq::<u8>::empty());
            assert(nat_limbs(n) =~= seq![(n % 256) as u8] + nat_limbs(n / 256));
            assert(nat_limbs(n) =~= s);
        } else {
            assert(t.last() == s.last());
            lemma_canonical_limbs(t);
            lemma_le_val_lower(t);
            lemma_pow256_pos((t.len() - 1) as nat);
            assert(le_val(t) >= 1);
            assert(n != 0);
            lemma_fundamental_div_mod_converse(n as int, 256, le_val(t) as int, s[0] as int);
            assert(n % 256 == s[0] && n / 256 == le_val(t));
            assert(nat_limbs(n) =~= seq![s[0]] + t);
            assert(seq![s[0]] + t =~= s);
        }
    }
}

/// Two canonical digit strings with the same value are the same string.
pub proof fn lemma_canonical_injective(a: Seq<u8>, b: Seq<u8>)
    requires
        canonical(a),
        canonical(b),
        le_val(a) == le_val(b),
    ensures
        a == b,
{
    lemma_canonical_limbs(a);
    lemma_canonical_limbs(b);
}

/// An arbitrary-precision unsigned integer: a little-endian base-256 digit
/// string with no trailing zero digit. Its mathematical value is its view.
#[derive(Debug)]
pub struct U256 {
    limbs: Vec<u8>,
}

/// The result of an ordered comparison of two amounts.
#[derive(Clone, Copy, Debug, PartialEq, Eq, Structural)]
pub enum AmountOrdering {
    Less,
    Equal,
    Greater,
}

impl View for U256 {
    type V = nat;

    closed spec fn view(&self) -> nat {
        le_val(self.limbs@)
    }
}

impl U256 {
    /// The internal digit string holds no trailing zero, so each value has
    /// exactly one representation.
    pub closed spec fn wf(&self) -> bool {
        canonical(self.limbs@)
    }

    pub closed spec fn spec_limbs(&self) -> Seq<u8> {
        self.limbs@
    }

    pub proof fn lemma_limbs_are_canonical(&self)
        requires
            self.wf(),
        ensures
            self.spec_limbs() == nat_limbs(self@),
            canonical(self.spec_limbs()),
            le_val(self.spec_limbs()) == self@,
            self.spec_limbs().len() < 0x10000000000000000,
    {
        lemma_canonical_limbs(self.limbs@);
        vstd::std_specs::vec::axiom_spec_len(&self.limbs);
    }

    /// Two well-formed amounts with equal values hold the same digit string.
    pub proof fn lemma_value_determines(a: &U256, b: &U256)
        requires
            a.wf(),
            b.wf(),
            a@ == b@,
        ensures
            a.spec_limbs() == b.spec_limbs(),
    {
        lemma_canonical_injective(a.limbs@, b.limbs@);
    }

    pub fn zero() -> (r: U256)
        ensures
            r.wf(),
            r@ == 0,
    {
        U256 { limbs: Vec::new() }
    }

    pub fn from_u64(v: u64) -> (r: U256)
        ensures
            r.wf(),
            r@ == v,
    {
        U256 { limbs: u64_limbs(v) }
    }

    /// Reads a big-endian byte string; leading zero bytes are accepted and
    /// ignored.
    pub fn from_bytes_be(bytes: &[u8]) -> (r: U256)
        ensures
            r.wf(),
            r@ == be_val(bytes@),
    {
        let n: usize = bytes.len();
        let mut limbs: Vec<u8> = Vec::new();
        let mut j: usize = 0;
        while j < n
            invariant
                n == bytes@.len(),
                j <= n,
                le_val(limbs@) == be_val(bytes@.take(j as int)),
            decreases n - j,
        {
            let b: u8 = *vstd::slice::slice_index_get(bytes, j);
            let ghost prev = limbs@;
            limbs.insert(0, b);
            proof {
                assert(limbs@.drop_first() =~= prev);
                assert(limbs@[0] == b);
                assert(bytes@.take(j + 1).drop_last() =~= bytes@.take(j as int));
                assert(bytes@.take(j + 1).last() == bytes@[j as int]);
            }
            j += 1;
        }
        proof {
            assert(bytes@.take(n as int) =~= bytes@);
        }
        trim(&mut limbs);
        U256 { limbs }
    }

    /// The canonical big-endian byte string of the value: no leading zero
    /// byte; the zero value gives the empty string.
    pub fn to_bytes_be(&self) -> (r: Vec<u8>)
        requires
            self.wf(),
        ensures
            be_val(r@) == self@,
            r@.len() == 0 || r@[0] != 0,
    {
        let n: usize = self.limbs.len();
        let mut out: Vec<u8> = Vec::new();
        let mut k: usize = 0;
        while k < n
            invariant
                n == self.limbs@.len(),
                k <= n,
                be_val(out@) == tail_val(self.limbs@, n - k),
                out@.len() == k,
                canonical(self.limbs@),
                k > 0 ==> out@[0] == self.limbs@.last(),
            decreases n - k,
        {
            let i: usize = n - 1 - k;
            let b: u8 = self.limbs[i];
            let ghost prev = out@;
            out.push(b);
            proof {
                assert(out@.drop_last() =~= prev);
                assert(out@.last() == b);
                lemma_tail_val_unfold(self.limbs@, i as int);
                if k == 0 {
                    assert(out@[0] == self.limbs@[n - 1]);
                }
            }
            k += 1;
        }
        proof {
            lemma_tail_val_zero(self.limbs@);
        }
        out
    }

    /// Reads a little-endian byte string; trailing zero bytes are accepted
    /// and ignored.
    pub fn from_bytes_le(bytes: &[u8]) -> (r: U256)
        ensures
            r.wf(),
            r@ == le_val(bytes@),
    {
        let mut limbs: Vec<u8> = vstd::slice::slice_to_vec(bytes);
        trim(&mut limbs);
        U256 { limbs }
    }

    /// The canonical little-endian byte string of the value: no trailing
    /// zero byte; the zero value gives the empty string.
    pub fn to_bytes_le(&self) -> (r: Vec<u8>)
        requires
            self.wf(),
        ensures
            le_val(r@) == self@,
            canonical(r@),
            r@ == self.spec_limbs(),
    {
        copy_bytes(&self.limbs)
    }

    pub fn compare(&self, other: &U256) -> (r: AmountOrdering)
        requires
            self.wf(),
            other.wf(),
        ensures
            r == AmountOrdering::Less <==> self@ < other@,
            r == AmountOrdering::Equal <==> self@ == other@,
            r == AmountOrdering::Greater <==> self@ > other@,
    {
        let a = &self.limbs;
        let b = &other.limbs;
        if a.len() < b.len() {
            proof {
                lemma_le_val_upper(a@);
                lemma_le_val_lower(b@);
                lemma_pow256_mono(a@.len(), (b@.len() - 1) as nat);
            }
            AmountOrdering::Less
        } else if a.len() > b.len() {
            proof {
                lemma_le_val_upper(b@);
                lemma_le_val_lower(a@);
                lemma_pow256_mono(b@.len(), (a@.len() - 1) as nat);
            }
            AmountOrdering::Greater
        } else {
            proof {
                lemma_tail_val_zero(a@);
                lemma_tail_val_zero(b@);
            }
            cmp_limbs(a, b, 0)
        }
    }

    /// The sum; an unbounded unsigned amount cannot overflow.
    pub fn add(&self, other: &U256) -> (r: U256)
        requires
            self.wf(),
            other.wf(),
        ensures
            r.wf(),
            r@ == self@ + other@,
    {
        proof {
            lemma_tail_val_zero(self.limbs@);
            lemma_tail_val_zero(other.limbs@);
        }
        let mut limbs = add_limbs(&self.limbs, &other.limbs, 0, 0);
        trim(&mut limbs);
        U256 { limbs }
    }

    /// The difference; the caller must have checked that the subtrahend does
    /// not exceed the minuend.
    pub fn sub(&self, other: &U256) -> (r: U256)
        requires
            self.wf(),
            other.wf(),
            other@ <= self@,
        ensures
            r.wf(),
            r@ == self@ - other@,
    {
        proof {
            lemma_tail_val_zero(self.limbs@);
            lemma_tail_val_zero(other.limbs@);
        }
        let mut limbs = sub_limbs(&self.limbs, &other.limbs, 0, 0);
        trim(&mut limbs);
        U256 { limbs }
    }

    /// The decimal digit string of the value, most significant digit first.
    pub fn to_string(&self) -> (r: String)
        requires
            self.wf(),
        ensures
            r@ == dec_str(self@),
    {
        let digits = copy_bytes(&self.limbs);
        dec_string(digits)
    }

    /// Reads a decimal digit string, most significant digit first.
    pub fn from_dec_str(value: &str) -> (r: U256)
        requires
            forall|i: int| 0 <= i < value@.len() ==> is_digit_char(#[trigger] value@[i]),
        ensures
            r.wf(),
            r@ == dec_val(value@),
    {
        let n: usize = value.unicode_len();
        let mut limbs: Vec<u8> = Vec::new();
        let mut i: usize = 0;
        while i < n
            invariant
                n == value@.len(),
                i <= n,
                le_val(limbs@) == dec_val(value@.take(i as int)),
                forall|j: int| 0 <= j < value@.len() ==> is_digit_char(#[trigger] value@[j]),
            decreases n - i,
        {
            let c: char = value.get_char(i);
            let d: u8 = digit_of(c);
            proof {
                lemma_tail_val_zero(limbs@);
            }
            mul10_add(&mut limbs, 0, d);
            proof {
                lemma_tail_val_zero(limbs@);
                assert(value@.take(i + 1).drop_last() =~= value@.take(i as int));
                assert(value@.take(i + 1).last() == value@[i as int]);
            }
            i += 1;
        }
        proof {
            assert(value@.take(n as int) =~= value@);
        }
        trim(&mut limbs);
        U256 { limbs }
    }
}

impl Clone for U256 {
    fn clone(&self) -> (r: Self)
        ensures
            r@ == self@,
            r.wf() == self.wf(),
            r.spec_limbs() == self.spec_limbs(),
    {
        U256 { limbs: copy_bytes(&self.limbs) }
    }
}

impl Default for U256 {
    /// The zero amount.
    fn default() -> (r: Self)
        ensures
            r.wf(),
            r@ == 0,
    {
        U256 { limbs: Vec::new() }
    }
}

impl PartialEq for U256 {
    fn eq(&self, other: &Self) -> (r: bool) {
        bytes_eq(&self.limbs, &other.limbs)
    }
}

impl Eq for U256 {}

impl vstd::std_specs::cmp::PartialEqSpecImpl for U256 {
    open spec fn obeys_eq_spec() -> bool {
        true
    }

    open spec fn eq_spec(&self, other: &Self) -> bool {
        self.spec_limbs() == other.spec_limbs()
    }
}

pub fn bytes_eq(a: &Vec<u8>, b: &Vec<u8>) -> (r: bool)
    ensures
        r == (a@ == b@),
{
    if a.len() != b.len() {
        return false;
    }
    let n: usize = a.len();
    let mut i: usize = 0;
    while i < n
        invariant
            n == a@.len(),
            n == b@.len(),
            i <= n,
            forall|j: int| 0 <= j < i ==> a@[j] == b@[j],
        decreases n - i,
    {
        if a[i] != b[i] {
            return false;
        }
        i += 1;
    }
    proof {
        assert(a@ =~= b@);
    }
    true
}

pub fn copy_bytes(v: &Vec<u8>) -> (r: Vec<u8>)
    ensures
        r@ == v@,
{
    let n: usize = v.len();
    let mut r: Vec<u8> = Vec::new();
    let mut i: usize = 0;
    while i < n
        invariant
            n == v@.len(),
            i <= n,
            r@ =~= v@.take(i as int),
        decreases n - i,
    {
        r.push(v[i]);
        i += 1;
    }
    proof {
        assert(v@.take(n as int) =~= v@);
    }
    r
}

/// Removes trailing zero digits; the value is unchanged and the result is
/// canonical.
fn trim(v: &mut Vec<u8>)
    ensures
        canonical(final(v)@),
        le_val(final(v)@) == le_val(old(v)@),
{
    loop
        invariant
            le_val(v@) == le_val(old(v)@),
        decreases v@.len(),
    {
        let n: usize = v.len();
        if n == 0 {
            return ;
        }
        if v[n - 1] != 0 {
            return ;
        }
        proof {
            lemma_le_val_drop_last_zero(v@);
        }
        v.pop();
    }
}

fn u64_limbs(v: u64) -> (r: Vec<u8>)
    ensures
        canonical(r@),
        le_val(r@) == v,
    decreases v,
{
    if v == 0 {
        Vec::new()
    } else {
        let mut rest = u64_limbs(v / 256);
        let d: u8 = (v % 256) as u8;
        let ghost prev = rest@;
        rest.insert(0, d);
        proof {
            assert(rest@.drop_first() =~= prev);
            assert(rest@[0] == d);
            lemma_fundamental_div_mod(v as int, 256);
            if prev.len() == 0 {
                assert(rest@.last() == d);
            } else {
                assert(rest@.last() == prev.last());
            }
        }
        rest
    }
}

/// Digit-wise sum of the suffixes of two digit strings starting at `i`, with
/// an incoming carry.
fn add_limbs(a: &Vec<u8>, b: &Vec<u8>, i: usize, carry: u8) -> (r: Vec<u8>)
    requires
        carry <= 1,
    ensures
        le_val(r@) == tail_val(a@, i as int) + tail_val(b@, i as int) + carry,
    decreases a@.len() + b@.len() - i,
{
    if i >= a.len() && i >= b.len() {
        let mut r: Vec<u8> = Vec::new();
        if carry > 0 {
            r.push(carry);
            proof {
                assert(r@.drop_first() =~= Seq::<u8>::empty());
                assert(le_val(Seq::<u8>::empty()) == 0);
                assert(le_val(r@) == (r@[0] + 256 * le_val(r@.drop_first())) as nat);
            }
        } else {
            proof {
                assert(le_val(r@) == 0);
            }
        }
        r
    } else {
        let av: u16 = if i < a.len() {
            a[i] as u16
        } else {
            0
        };
        let bv: u16 = if i < b.len() {
            b[i] as u16
        } else {
            0
        };
        let cur: u16 = av + bv + carry as u16;
        let digit: u8 = (cur % 256) as u8;
        let c2: u8 = (cur / 256) as u8;
        let mut rest = add_limbs(a, b, i + 1, c2);
        let ghost prev = rest@;
        rest.insert(0, digit);
        proof {
            assert(rest@.drop_first() =~= prev);
            assert(rest@[0] == digit);
            if i < a.len() {
                lemma_tail_val_unfold(a@, i as int);
            }
            if i < b.len() {
                lemma_tail_val_unfold(b@, i as int);
            }
            lemma_fundamental_div_mod(cur as int, 256);
        }
        rest
    }
}

/// Digit-wise difference of the suffixes of two digit strings starting at
/// `i`, with an incoming borrow.
fn sub_limbs(a: &Vec<u8>, b: &Vec<u8>, i: usize, borrow: u8) -> (r: Vec<u8>)
    requires
        borrow <= 1,
        tail_val(b@, i as int) + borrow <= tail_val(a@, i as int),
    ensures
        le_val(r@) == tail_val(a@, i as int) - tail_val(b@, i as int) - borrow,
    decreases a@.len() - i,
{
    if i >= a.len() {
        Vec::new()
    } else {
        let av: u16 = a[i] as u16;
        let bv: u16 = if i < b.len() {
            b[i] as u16
        } else {
            0
        };
        proof {
            lemma_tail_val_unfold(a@, i as int);
            if i < b.len() {
                lemma_tail_val_unfold(b@, i as int);
            }
        }
        let (digit, b2): (u8, u8) = if av >= bv + borrow as u16 {
            ((av - bv - borrow as u16) as u8, 0)
        } else {
            ((av + 256 - bv - borrow as u16) as u8, 1)
        };
        proof {
            assert(digit == av + 256 * b2 - bv - borrow);
            let ta = tail_val(a@, i + 1) as int;
            let tb = tail_val(b@, i + 1) as int;
            let d = tail_val(a@, i as int) - tail_val(b@, i as int) - borrow;
            assert(d >= 0);
            assert(d == digit + 256 * (ta - tb - b2));
            assert(ta - tb - b2 >= 0) by {
                if ta - tb - b2 <= -1 {
                    assert(d <= digit - 256);
                }
            }
        }
        let mut rest = sub_limbs(a, b, i + 1, b2);
        let ghost prev = rest@;
        rest.insert(0, digit);
        proof {
            assert(rest@.drop_first() =~= prev);
            assert(rest@[0] == digit);
        }
        rest
    }
}

/// Compares equal-length suffixes of two digit strings, most significant
/// digit first.
fn cmp_limbs(a: &Vec<u8>, b: &Vec<u8>, i: usize) -> (r: AmountOrdering)
    requires
        a@.len() == b@.len(),
        i <= a@.len(),
    ensures
        r == AmountOrdering::Less <==> tail_val(a@, i as int) < tail_val(b@, i as int),
        r == AmountOrdering::Equal <==> tail_val(a@, i as int) == tail_val(b@, i as int),
        r == AmountOrdering::Greater <==> tail_val(a@, i as int) > tail_val(b@, i as int),
    decreases a@.len() - i,
{
    if i == a.len() {
        AmountOrdering::Equal
    } else {
        proof {
            lemma_tail_val_unfold(a@, i as int);
            lemma_tail_val_unfold(b@, i as int);
        }
        let rest = cmp_limbs(a, b, i + 1);
        match rest {
            AmountOrdering::Equal => {
                if a[i] < b[i] {
                    AmountOrdering::Less
                } else if a[i] > b[i] {
                    AmountOrdering::Greater
                } else {
                    AmountOrdering::Equal
                }
            },
            other => other,
        }
    }
}

/// Multiplies the suffix of a digit string starting at `i` by ten and adds
/// the incoming value.
fn mul10_add(v: &mut Vec<u8>, i: usize, add_in: u8)
    requires
        i <= old(v)@.len(),
        add_in <= 9,
    ensures
        final(v)@.len() >= old(v)@.len(),
        final(v)@.take(i as int) == old(v)@.take(i as int),
        tail_val(final(v)@, i as int) == 10 * tail_val(old(v)@, i as int) + add_in,
    decreases old(v)@.len() - i,
{
    if i == v.len() {
        if add_in > 0 {
            v.push(add_in);
            proof {
                assert(final(v)@.take(i as int) =~= old(v)@.take(i as int));
                assert(final(v)@.skip(i as int) =~= seq![add_in]);
                assert(seq![add_in].drop_first() =~= Seq::<u8>::empty());
                assert(le_val(Seq::<u8>::empty()) == 0);
                assert(le_val(seq![add_in]) == (seq![add_in][0] + 256 * le_val(
                    seq![add_in].drop_first(),
                )) as nat);
            }
        }
    } else {
        let cur: u16 = (v[i] as u16) * 10 + add_in as u16;
        let digit: u8 = (cur % 256) as u8;
        let c2: u8 = (cur / 256) as u8;
        v.set(i, digit);
        let ghost mid = v@;
        proof {
            lemma_fundamental_div_mod(cur as int, 256);
            assert(c2 <= 9);
        }
        mul10_add(v, i + 1, c2);
        proof {
            assert(final(v)@.take(i + 1) == mid.take(i + 1));
            assert(final(v)@.take(i + 1)[i as int] == final(v)@[i as int]);
            assert(mid.take(i + 1)[i as int] == mid[i as int]);
            assert(final(v)@[i as int] == digit);
            assert(final(v)@.take(i as int) =~= old(v)@.take(i as int));
            assert(i < final(v)@.len());
            lemma_tail_val_unfold(final(v)@, i as int);
            assert(mid.skip(i + 1) =~= old(v)@.skip(i + 1));
            assert(tail_val(mid, i + 1) == tail_val(old(v)@, i + 1));
            lemma_tail_val_unfold(old(v)@, i as int);
        }
    }
}

/// Divides the suffix of a digit string starting at `i` by ten; returns the
/// quotient digits and the remainder.
fn div10(v: &Vec<u8>, i: usize) -> (qr: (Vec<u8>, u8))
    requires
        i <= v@.len(),
    ensures
        qr.1 < 10,
        qr.0@.len() == v@.len() - i,
        10 * le_val(qr.0@) + qr.1 == tail_val(v@, i as int),
    decreases v@.len() - i,
{
    if i == v.len() {
        (Vec::new(), 0)
    } else {
        let (q0, r) = div10(v, i + 1);
        let mut q = q0;
        let cur: u16 = 256 * (r as u16) + (v[i] as u16);
        let d: u8 = (cur / 10) as u8;
        let r2: u8 = (cur % 10) as u8;
        let ghost prev = q@;
        q.insert(0, d);
        proof {
            assert(q@.drop_first() =~= prev);
            assert(q@[0] == d);
            lemma_tail_val_unfold(v@, i as int);
            lemma_fundamental_div_mod(cur as int, 10);
        }
        (q, r2)
    }
}

/// A one-character string slice for a decimal digit.
fn digit_str(d: u8) -> (s: &'static str)
    requires
        d < 10,
    ensures
        s@.len() == 1,
        s@[0] == digit_char(d as nat),
{
    if d == 0 {
        let s = "0";
        proof {
            reveal_strlit("0");
        }
        s
    } else if d == 1 {
        let s = "1";
        proof {
            reveal_strlit("1");
        }
        s
    } else if d == 2 {
        let s = "2";
        proof {
            reveal_strlit("2");
        }
        s
    } else if d == 3 {
        let s = "3";
        proof {
            reveal_strlit("3");
        }
        s
    } else if d == 4 {
        let s = "4";
        proof {
            reveal_strlit("4");
        }
        s
    } else if d == 5 {
        let s = "5";
        proof {
            reveal_strlit("5");
        }
        s
    } else if d == 6 {
        let s = "6";
        proof {
            reveal_strlit("6");
        }
        s
    } else if d == 7 {
        let s = "7";
        proof {
            reveal_strlit("7");
        }
        s
    } else if d == 8 {
        let s = "8";
        proof {
            reveal_strlit("8");
        }
        s
    } else {
        let s = "9";
        proof {
            reveal_strlit("9");
        }
        s
    }
}

fn digit_of(c: char) -> (d: u8)
    requires
        is_digit_char(c),
    ensures
        d == char_digit(c),
        d <= 9,
{
    match c {
        '0' => 0,
        '1' => 1,
        '2' => 2,
        '3' => 3,
        '4' => 4,
        '5' => 5,
        '6' => 6,
        '7' => 7,
        '8' => 8,
        _ => 9,
    }
}

/// The decimal digit string of the value of a digit string.
fn dec_string(v: Vec<u8>) -> (s: String)
    ensures
        s@ == dec_str(le_val(v@)),
    decreases le_val(v@),
{
    proof {
        lemma_tail_val_zero(v@);
    }
    let (q0, r) = div10(&v, 0);
    let mut q = q0;
    trim(&mut q);
    let ghost val = le_val(v@);
    if q.len() == 0 {
        proof {
            assert(le_val(q@) == 0);
            assert(val == r);
        }
        let mut s = String::new();
        s.append(digit_str(r));
        proof {
            assert(s@ =~= dec_str(val));
        }
        s
    } else {
        proof {
            lemma_le_val_lower(q@);
            lemma_pow256_pos((q@.len() - 1) as nat);
            assert(le_val(q@) >= 1);
            assert(val == 10 * le_val(q@) + r);
            assert(le_val(q@) < val);
            assert(val >= 10);
            lemma_fundamental_div_mod_converse(val as int, 10, le_val(q@) as int, r as int);
            assert(val / 10 == le_val(q@) && val % 10 == r);
        }
        let mut s = dec_string(q);
        s.append(digit_str(r));
        proof {
            assert(s@ =~= dec_str(val));
        }
        s
    }
}

} // verus!
