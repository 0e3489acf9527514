use vstd::prelude::*;

verus! {

/// An IPv4 peer address: four octets and a port. Compared field by field.
#[derive(Clone, Copy, Debug, PartialEq, Eq, Structural)]
pub struct PeerAddr {
    pub a: u8,
    pub b: u8,
    pub c: u8,
    pub d: u8,
    pub port: u16,
}

pub const DOT: u8 = 46;

pub const COLON: u8 = 58;

pub const ZERO: u8 = 48;

pub open spec fn is_digit(x: u8) -> bool {
    48 <= x <= 57
}

/// The canonical decimal numeral of `n`: no sign, no leading zero.
pub open spec fn decimal(n: nat) -> Seq<u8>
    decreases n,
{
    if n < 10 {
        seq![(48 + n) as u8]
    } else {
        decimal(n / 10).push((48 + n % 10) as u8)
    }
}

/// The value of a run of decimal digits.
pub open spec fn digits_value(s: Seq<u8>) -> nat
    decreases s.len(),
{
    if s.len() == 0 {
        0
    } else {
        digits_value(s.drop_last()) * 10 + (s.last() - 48) as nat
    }
}

pub open spec fn all_digits(s: Seq<u8>) -> bool {
    forall|i: int| 0 <= i < s.len() ==> is_digit(#[trigger] s[i])
}

/// A numeral with no superfluous leading zero.
pub open spec fn canonical_digits(s: Seq<u8>) -> bool {
    &&& s.len() > 0
    &&& all_digits(s)
    &&& (s.len() > 1 ==> s[0] != 48)
}

/// What may follow a numeral: nothing, or a byte that is not a digit.
pub open spec fn numeral_boundary(t: Seq<u8>) -> bool {
    t.len() == 0 || !is_digit(t[0])
}

/// The text form of an address, `a.b.c.d:port`, each number in canonical decimal.
pub open spec fn addr_text(p: PeerAddr) -> Seq<u8> {
    decimal(p.a as nat) + (seq![DOT] + (decimal(p.b as nat) + (seq![DOT] + (decimal(p.c as nat) + (
    seq![DOT] + (decimal(p.d as nat) + (seq![COLON] + decimal(p.port as nat))))))))
}

/// The address that a text names, if it names one.
pub open spec fn addr_of(s: Seq<u8>) -> Option<PeerAddr> {
    if exists|p: PeerAddr| s == addr_text(p) {
        Some(choose|p: PeerAddr| s == addr_text(p))
    } else {
        None
    }
}

pub proof fn lemma_decimal_shape(n: nat)
    ensures
        canonical_digits(decimal(n)),
        digits_value(decimal(n)) == n,
        n < 10 ==> decimal(n).len() == 1,
        n >= 10 ==> decimal(n).len() >= 2,
    decreases n,
{
    let s = decimal(n);
    if n >= 10 {
        lemma_decimal_shape(n / 10);
        let q = decimal(n / 10);
        assert(s.drop_last() =~= q);
        assert(s[0] == q[0]);
        if n / 10 < 10 {
            assert(n / 10 >= 1);
            assert(q[0] == (48 + n / 10) as u8);
        }
        assert forall|i: int| 0 <= i < s.len() implies is_digit(#[trigger] s[i]) by {
            if i < q.len() {
                assert(s[i] == q[i]);
            } else {
                assert(s[i] == (48 + n % 10) as u8);
            }
        }
        assert(digits_value(s) == digits_value(q) * 10 + n % 10);
    } else {
        assert(s.drop_last() =~= Seq::<u8>::empty());
        assert(s[0] == (48 + n) as u8);
        assert(digits_value(s) == digits_value(s.drop_last()) * 10 + n);
    }
}

pub proof fn lemma_canonical_decimal(s: Seq<u8>)
    requires
        canonical_digits(s),
    ensures
        decimal(digits_value(s)) == s,
    decreases s.len(),
{
    if s.len() == 1 {
        assert(s.drop_last() =~= Seq::<u8>::empty());
        assert(digits_value(s.drop_last()) == 0);
        assert(s.last() == s[0]);
        assert(digits_value(s) == (s[0] - 48) as nat);
        assert(decimal(digits_value(s)) =~= s);
    } else {
        let p = s.drop_last();
        assert(canonical_digits(p)) by {
            assert forall|i: int| 0 <= i < p.len() implies is_digit(#[trigger] p[i]) by {
                assert(p[i] == s[i]);
            }
            assert(p[0] == s[0]);
        }
        lemma_canonical_decimal(p);
        let v = digits_value(s);
        let d = (s.last() - 48) as nat;
        assert(v == digits_value(p) * 10 + d);
        assert(v / 10 == digits_value(p) && v % 10 == d) by (nonlinear_arith)
            requires
                v == digits_value(p) * 10 + d,
                d < 10,
        ;
        assert(decimal(v) =~= s);
    }
}

pub proof fn lemma_decimal_injective(n: nat, m: nat)
    requires
        decimal(n) == decimal(m),
    ensures
        n == m,
{
    lemma_decimal_shape(n);
    lemma_decimal_shape(m);
}

/// A run of digits at the front of `decimal(n) + t` cannot reach past the numeral.
proof fn lemma_run_within_numeral(x: Seq<u8>, n: nat, t: Seq<u8>, k: int)
    requires
        x == decimal(n) + t,
        numeral_boundary(t),
        0 <= k <= x.len(),
        all_digits(x.subrange(0, k)),
    ensures
        k <= decimal(n).len(),
{
    let dl = decimal(n).len() as int;
    if k > dl {
        assert(x.subrange(0, k)[dl] == x[dl]);
        assert(x[dl] == t[0]);
    }
}

/// A text splits in at most one way into a numeral and what follows it.
pub proof fn lemma_numeral_unique(x: Seq<u8>, n: nat, t: Seq<u8>, m: nat, u: Seq<u8>)
    requires
        x == decimal(n) + t,
        x == decimal(m) + u,
        numeral_boundary(t),
        numeral_boundary(u),
    ensures
        n == m,
        t == u,
{
    lemma_decimal_shape(n);
    lemma_decimal_shape(m);
    let dn = decimal(n).len() as int;
    let dm = decimal(m).len() as int;
    assert(x.subrange(0, dn) =~= decimal(n));
    assert(x.subrange(0, dm) =~= decimal(m));
    lemma_run_within_numeral(x, m, u, dn);
    lemma_run_within_numeral(x, n, t, dm);
    lemma_decimal_injective(n, m);
    assert(t =~= x.subrange(dn, x.len() as int));
    assert(u =~= x.subrange(dm, x.len() as int));
}

proof fn lemma_value_prefix(s: Seq<u8>, k: int)
    requires
        all_digits(s),
        0 <= k <= s.len(),
    ensures
        digits_value(s.subrange(0, k)) <= digits_value(s),
    decreases s.len(),
{
    if k < s.len() {
        let p = s.drop_last();
        assert forall|i: int| 0 <= i < p.len() implies is_digit(#[trigger] p[i]) by {
            assert(p[i] == s[i]);
        }
        lemma_value_prefix(p, k);
        assert(p.subrange(0, k) =~= s.subrange(0, k));
    } else {
        assert(s.subrange(0, k) =~= s);
    }
}

/// Reads the numeral that starts at `start`, when its value is at most `max`.
fn read_numeral(s: &[u8], start: usize, max: u32) -> (r: Option<(u32, usize)>)
    requires
        start <= s@.len(),
        max <= 65535,
    ensures
        match r {
            Some((v, end)) => {
                &&& start < end <= s@.len()
                &&& v <= max
                &&& s@.subrange(start as int, s@.len() as int) == decimal(v as nat) + s@.subrange(
                    end as int,
                    s@.len() as int,
                )
                &&& numeral_boundary(s@.subrange(end as int, s@.len() as int))
            },
            None => forall|n: nat, t: Seq<u8>|
                n <= max && numeral_boundary(t) ==> s@.subrange(start as int, s@.len() as int)
                    != #[trigger] (decimal(n) + t),
        },
{
    let ghost x = s@.subrange(start as int, s@.len() as int);
    let mut end: usize = start;
    let mut v: u32 = 0;
    while end < s.len() && is_digit_byte(s[end])
        invariant
            start <= end <= s@.len(),
            v <= max,
            max <= 65535,
            x == s@.subrange(start as int, s@.len() as int),
            all_digits(s@.subrange(start as int, end as int)),
            v == digits_value(s@.subrange(start as int, end as int)),
            end > start + 1 ==> s@[start as int] != ZERO,
        decreases s@.len() - end,
    {
        let ghost run = s@.subrange(start as int, end as int + 1);
        assert(run.drop_last() =~= s@.subrange(start as int, end as int));
        assert(all_digits(run)) by {
            assert forall|i: int| 0 <= i < run.len() implies is_digit(#[trigger] run[i]) by {
                if i < run.len() - 1 {
                    assert(run[i] == s@.subrange(start as int, end as int)[i]);
                }
            }
        }
        assert(run =~= x.subrange(0, run.len() as int));
        if end > start && s[start] == ZERO {
            proof {
                assert forall|n: nat, t: Seq<u8>|
                    n <= max && numeral_boundary(t) implies x != #[trigger] (decimal(n) + t) by {
                    if x == decimal(n) + t {
                        lemma_decimal_shape(n);
                        lemma_run_within_numeral(x, n, t, run.len() as int);
                        assert(decimal(n)[0] == x[0]);
                    }
                }
            }
            return None;
        }
        let nv: u32 = v * 10 + (s[end] - ZERO) as u32;
        assert(nv == digits_value(run));
        if nv > max {
            proof {
                assert forall|n: nat, t: Seq<u8>|
                    n <= max && numeral_boundary(t) implies x != #[trigger] (decimal(n) + t) by {
                    if x == decimal(n) + t {
                        lemma_decimal_shape(n);
                        lemma_run_within_numeral(x, n, t, run.len() as int);
                        assert(run =~= decimal(n).subrange(0, run.len() as int));
                        lemma_value_prefix(decimal(n), run.len() as int);
                    }
                }
            }
            return None;
        }
        v = nv;
        end = end + 1;
    }
    if end == start {
        proof {
            assert forall|n: nat, t: Seq<u8>|
                n <= max && numeral_boundary(t) implies x != #[trigger] (decimal(n) + t) by {
                if x == decimal(n) + t {
                    lemma_decimal_shape(n);
                    assert(x[0] == decimal(n)[0]);
                }
            }
        }
        return None;
    }
    proof {
        let run = s@.subrange(start as int, end as int);
        assert(run[0] == s@[start as int]);
        lemma_canonical_decimal(run);
        assert(x =~= run + s@.subrange(end as int, s@.len() as int));
    }
    Some((v, end))
}

fn is_digit_byte(x: u8) -> (r: bool)
    ensures
        r == is_digit(x),
{
    48 <= x && x <= 57
}

/// Two addresses with the same text are the same address.
pub proof fn lemma_addr_text_injective(p: PeerAddr, q: PeerAddr)
    requires
        addr_text(p) == addr_text(q),
    ensures
        p == q,
{
    let x = addr_text(p);
    let dot = seq![DOT];
    let pr3 = seq![COLON] + decimal(p.port as nat);
    let qr3 = seq![COLON] + decimal(q.port as nat);
    let pr2 = dot + (decimal(p.d as nat) + pr3);
    let qr2 = dot + (decimal(q.d as nat) + qr3);
    let pr1 = dot + (decimal(p.c as nat) + pr2);
    let qr1 = dot + (decimal(q.c as nat) + qr2);
    let pr0 = dot + (decimal(p.b as nat) + pr1);
    let qr0 = dot + (decimal(q.b as nat) + qr1);
    lemma_numeral_unique(x, p.a as nat, pr0, q.a as nat, qr0);
    assert(pr0.drop_first() =~= decimal(p.b as nat) + pr1);
    assert(qr0.drop_first() =~= decimal(q.b as nat) + qr1);
    lemma_numeral_unique(pr0.drop_first(), p.b as nat, pr1, q.b as nat, qr1);
    assert(pr1.drop_first() =~= decimal(p.c as nat) + pr2);
    assert(qr1.drop_first() =~= decimal(q.c as nat) + qr2);
    lemma_numeral_unique(pr1.drop_first(), p.c as nat, pr2, q.c as nat, qr2);
    assert(pr2.drop_first() =~= decimal(p.d as nat) + pr3);
    assert(qr2.drop_first() =~= decimal(q.d as nat) + qr3);
    lemma_numeral_unique(pr2.drop_first(), p.d as nat, pr3, q.d as nat, qr3);
    assert(pr3.drop_first() =~= decimal(p.port as nat));
    assert(qr3.drop_first() =~= decimal(q.port as nat));
    lemma_decimal_injective(p.port as nat, q.port as nat);
}

/// Reads a numeral of value at most `max` at `start`, and the byte `sep` right after it.
fn read_part(s: &[u8], start: usize, max: u32, sep: u8) -> (r: Option<(u32, usize)>)
    requires
        start <= s@.len(),
        max <= 65535,
        !is_digit(sep),
    ensures
        match r {
            Some((v, next)) => {
                &&& start < next <= s@.len()
                &&& v <= max
                &&& s@.subrange(start as int, s@.len() as int) == decimal(v as nat) + (seq![sep]
                    + s@.subrange(next as int, s@.len() as int))
                &&& forall|n: nat, t: Seq<u8>|
                    s@.subrange(start as int, s@.len() as int) == #[trigger] (decimal(n) + (
                    seq![sep] + t)) ==> n == v && t == s@.subrange(next as int, s@.len() as int)
            },
            None => forall|n: nat, t: Seq<u8>|
                n <= max ==> s@.subrange(start as int, s@.len() as int) != #[trigger] (decimal(n)
                    + (seq![sep] + t)),
        },
{
    let ghost x = s@.subrange(start as int, s@.len() as int);
    match read_numeral(s, start, max) {
        None => {
            proof {
                assert forall|n: nat, t: Seq<u8>| n <= max implies x != #[trigger] (decimal(n) + (
                seq![sep] + t)) by {
                    assert(numeral_boundary(seq![sep] + t)) by {
                        assert((seq![sep] + t)[0] == sep);
                    }
                }
            }
            None
        },
        Some((v, end)) => {
            let ghost rest = s@.subrange(end as int, s@.len() as int);
            if end < s.len() && s[end] == sep {
                let ghost after = s@.subrange(end as int + 1, s@.len() as int);
                proof {
                    assert(rest =~= seq![sep] + after);
                    assert forall|n: nat, t: Seq<u8>|
                        x == #[trigger] (decimal(n) + (seq![sep] + t)) implies n == v && t
                        == after by {
                        assert((seq![sep] + t)[0] == sep);
                        lemma_numeral_unique(x, n, seq![sep] + t, v as nat, rest);
                        assert(t =~= (seq![sep] + t).drop_first());
                        assert(after =~= rest.drop_first());
                    }
                }
                Some((v, end + 1))
            } else {
                proof {
                    assert forall|n: nat, t: Seq<u8>| n <= max implies x != #[trigger] (decimal(
                        n,
                    ) + (seq![sep] + t)) by {
                        if x == decimal(n) + (seq![sep] + t) {
                            assert((seq![sep] + t)[0] == sep);
                            lemma_numeral_unique(x, n, seq![sep] + t, v as nat, rest);
                            assert(rest[0] == s@[end as int]);
                        }
                    }
                }
                None
            }
        },
    }
}

/// Reads a numeral of value at most `max` that runs from `start` to the end of `s`.
fn read_last(s: &[u8], start: usize, max: u32) -> (r: Option<u32>)
    requires
        start <= s@.len(),
        max <= 65535,
    ensures
        match r {
            Some(v) => v <= max && s@.subrange(start as int, s@.len() as int) == decimal(v as nat),
            None => forall|n: nat|
                n <= max ==> s@.subrange(start as int, s@.len() as int) != #[trigger] decimal(n),
        },
{
    let ghost x = s@.subrange(start as int, s@.len() as int);
    match read_numeral(s, start, max) {
        None => {
            proof {
                assert forall|n: nat| n <= max implies x != #[trigger] decimal(n) by {
                    assert(decimal(n) + Seq::<u8>::empty() =~= decimal(n));
                }
            }
            None
        },
        Some((v, end)) => {
            let ghost rest = s@.subrange(end as int, s@.len() as int);
            if end == s.len() {
                assert(x =~= decimal(v as nat));
                Some(v)
            } else {
                proof {
                    assert forall|n: nat| n <= max implies x != #[trigger] decimal(n) by {
                        if x == decimal(n) {
                            assert(decimal(n) + Seq::<u8>::empty() =~= decimal(n));
                            lemma_numeral_unique(x, n, Seq::<u8>::empty(), v as nat, rest);
                        }
                    }
                }
                None
            }
        },
    }
}

/// Reads an address written as `a.b.c.d:port`, each number in canonical decimal.
pub fn parse_addr(s: &[u8]) -> (r: Option<PeerAddr>)
    ensures
        r == addr_of(s@),
{
    let ghost len = s@.len() as int;
    proof {
        assert(s@.subrange(0, len) =~= s@);
    }
    let (a, i1) = match read_part(s, 0, 255, DOT) {
        Some(x) => x,
        None => {
            proof {
                assert forall|p: PeerAddr| s@ != addr_text(p) by {}
            }
            return None;
        },
    };
    let (b, i2) = match read_part(s, i1, 255, DOT) {
        Some(x) => x,
        None => {
            proof {
                assert forall|p: PeerAddr| s@ != addr_text(p) by {}
            }
            return None;
        },
    };
    let (c, i3) = match read_part(s, i2, 255, DOT) {
        Some(x) => x,
        None => {
            proof {
                assert forall|p: PeerAddr| s@ != addr_text(p) by {}
            }
            return None;
        },
    };
    let (d, i4) = match read_part(s, i3, 255, COLON) {
        Some(x) => x,
        None => {
            proof {
                assert forall|p: PeerAddr| s@ != addr_text(p) by {}
            }
            return None;
        },
    };
    let port = match read_last(s, i4, 65535) {
        Some(x) => x,
        None => {
            proof {
                assert forall|p: PeerAddr| s@ != addr_text(p) by {}
            }
            return None;
        },
    };
    let r = PeerAddr { a: a as u8, b: b as u8, c: c as u8, d: d as u8, port: port as u16 };
    proof {
        assert(s@ == addr_text(r));
        let q = choose|q: PeerAddr| s@ == addr_text(q);
        lemma_addr_text_injective(r, q);
    }
    Some(r)
}

/// A signed numeral: a minus sign before the magnitude of a negative number.
pub open spec fn signed_decimal(n: int) -> Seq<u8> {
    if n < 0 {
        seq![MINUS] + decimal((-n) as nat)
    } else {
        decimal(n as nat)
    }
}

pub const MINUS: u8 = 45;

/// Appends the signed decimal numeral of `n`.
pub fn push_signed_decimal(out: &mut Vec<u8>, n: i32)
    ensures
        final(out)@ == old(out)@ + signed_decimal(n as int),
{
    if n < 0 {
        out.push(MINUS);
        let m: u32 = if n == i32::MIN {
            2147483648u32
        } else {
            (-n) as u32
        };
        push_decimal(out, m);
        assert(final(out)@ =~= old(out)@ + signed_decimal(n as int));
    } else {
        push_decimal(out, n as u32);
    }
}

/// Appends the decimal numeral of `n`.
pub fn push_decimal(out: &mut Vec<u8>, n: u32)
    ensures
        final(out)@ == old(out)@ + decimal(n as nat),
    decreases n,
{
    if n >= 10 {
        push_decimal(out, n / 10);
    }
    out.push(48 + (n % 10) as u8);
    proof {
        if n >= 10 {
            assert(decimal(n as nat) == decimal((n / 10) as nat).push((48 + n % 10) as u8));
        }
    }
    assert(final(out)@ =~= old(out)@ + decimal(n as nat));
}

impl PeerAddr {
    pub fn new(a: u8, b: u8, c: u8, d: u8, port: u16) -> (r: PeerAddr)
        ensures
            r == (PeerAddr { a, b, c, d, port }),
    {
        PeerAddr { a, b, c, d, port }
    }

    /// Writes the address as `a.b.c.d:port`.
    pub fn to_text(&self) -> (r: Vec<u8>)
        ensures
            r@ == addr_text(*self),
    {
        let mut out: Vec<u8> = Vec::new();
        push_decimal(&mut out, self.a as u32);
        out.push(DOT);
        push_decimal(&mut out, self.b as u32);
        out.push(DOT);
        push_decimal(&mut out, self.c as u32);
        out.push(DOT);
        push_decimal(&mut out, self.d as u32);
        out.push(COLON);
        push_decimal(&mut out, self.port as u32);
        assert(out@ =~= addr_text(*self));
        out
    }
}

} // verus!
