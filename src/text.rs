//! Character-level helpers on names: equality, the order of names, decimal
//! rendering of occurrence indices, and the `kind@index` naming scheme.
use vstd::prelude::*;
use vstd::string::*;

verus! {

/// The ten decimal digits, in order.
pub open spec fn digit(d: nat) -> char {
    seq!['0', '1', '2', '3', '4', '5', '6', '7', '8', '9'][d as int]
}

/// The decimal rendering of `n`, without sign or leading zeros.
pub open spec fn decimal(n: nat) -> Seq<char>
    decreases n,
{
    if n < 10 {
        seq![digit(n)]
    } else {
        decimal(n / 10).push(digit(n % 10))
    }
}

/// Lexicographic order on names, character by character: the order of
/// `String`'s `Ord`.
pub open spec fn name_lt(a: Seq<char>, b: Seq<char>) -> bool
    decreases a.len(),
{
    if a.len() == 0 {
        b.len() > 0
    } else if b.len() == 0 {
        false
    } else if a[0] != b[0] {
        (a[0] as int) < (b[0] as int)
    } else {
        name_lt(a.drop_first(), b.drop_first())
    }
}

/// `box/local`: a name qualified by the box that declares it.
pub open spec fn qualified(bx: Seq<char>, local: Seq<char>) -> Seq<char> {
    bx + seq!['/'] + local
}

/// `kind@n`: the local name of the `n`-th anonymous node of a kind.
pub open spec fn occurrence(kind: Seq<char>, n: nat) -> Seq<char> {
    kind + seq!['@'] + decimal(n)
}

/// Whether a stored node name answers a request for `req`: a name holding
/// `@` answers by the part before its first `@`, any other name by equality.
pub open spec fn name_matches(cand: Seq<char>, req: Seq<char>) -> bool {
    if cand.contains('@') {
        req.len() < cand.len() && cand[req.len() as int] == '@' && cand.take(req.len() as int)
            == req && !req.contains('@')
    } else {
        cand == req
    }
}

pub proof fn lemma_name_lt_irreflexive(a: Seq<char>)
    ensures
        !name_lt(a, a),
    decreases a.len(),
{
    if a.len() > 0 {
        lemma_name_lt_irreflexive(a.drop_first());
    }
}

pub proof fn lemma_name_lt_transitive(a: Seq<char>, b: Seq<char>, c: Seq<char>)
    requires
        name_lt(a, b),
        name_lt(b, c),
    ensures
        name_lt(a, c),
    decreases a.len(),
{
    if a.len() > 0 && b.len() > 0 && c.len() > 0 && a[0] == b[0] && b[0] == c[0] {
        lemma_name_lt_transitive(a.drop_first(), b.drop_first(), c.drop_first());
    }
}

pub proof fn lemma_name_lt_total(a: Seq<char>, b: Seq<char>)
    requires
        a != b,
    ensures
        name_lt(a, b) || name_lt(b, a),
    decreases a.len(),
{
    if a.len() > 0 && b.len() > 0 {
        if a[0] == b[0] {
            if a.drop_first() == b.drop_first() {
                assert(a =~= seq![a[0]] + a.drop_first());
                assert(b =~= seq![b[0]] + b.drop_first());
            }
            lemma_name_lt_total(a.drop_first(), b.drop_first());
        } else {
            assert((a[0] as int) != (b[0] as int));
        }
    } else if a.len() == 0 && b.len() == 0 {
        assert(a =~= b);
    }
}

/// Whether two strings hold the same characters.
pub fn str_equal(a: &str, b: &str) -> (r: bool)
    ensures
        r == (a@ == b@),
{
    let n = a.unicode_len();
    if n != b.unicode_len() {
        return false;
    }
    let mut i: usize = 0;
    while i < n
        invariant
            n == a@.len(),
            n == b@.len(),
            i <= n,
            a@.take(i as int) == b@.take(i as int),
        decreases n - i,
    {
        if a.get_char(i) != b.get_char(i) {
            return false;
        }
        assert(a@.take(i + 1) =~= a@.take(i as int).push(a@[i as int]));
        assert(b@.take(i + 1) =~= b@.take(i as int).push(b@[i as int]));
        i = i + 1;
    }
    assert(a@ =~= a@.take(n as int));
    assert(b@ =~= b@.take(n as int));
    true
}

/// Whether `a` comes strictly before `b` in the order of names.
pub fn name_less(a: &str, b: &str) -> (r: bool)
    ensures
        r == name_lt(a@, b@),
{
    let na = a.unicode_len();
    let nb = b.unicode_len();
    let mut i: usize = 0;
    assert(a@.skip(0) =~= a@);
    assert(b@.skip(0) =~= b@);
    while i < na && i < nb
        invariant
            na == a@.len(),
            nb == b@.len(),
            i <= na,
            i <= nb,
            name_lt(a@, b@) == name_lt(a@.skip(i as int), b@.skip(i as int)),
        decreases na - i,
    {
        let ca = a.get_char(i);
        let cb = b.get_char(i);
        if ca != cb {
            return (ca as u32) < (cb as u32);
        }
        assert(a@.skip(i as int).drop_first() =~= a@.skip(i + 1));
        assert(b@.skip(i as int).drop_first() =~= b@.skip(i + 1));
        i = i + 1;
    }
    i == na && i < nb
}

fn digit_str(d: u64) -> (r: &'static str)
    requires
        d < 10,
    ensures
        r@ == seq![digit(d as nat)],
{
    proof {
        reveal_strlit("0");
        reveal_strlit("1");
        reveal_strlit("2");
        reveal_strlit("3");
        reveal_strlit("4");
        reveal_strlit("5");
        reveal_strlit("6");
        reveal_strlit("7");
        reveal_strlit("8");
        reveal_strlit("9");
    }
    let r = match d {
        0 => "0",
        1 => "1",
        2 => "2",
        3 => "3",
        4 => "4",
        5 => "5",
        6 => "6",
        7 => "7",
        8 => "8",
        _ => "9",
    };
    assert(r@ =~= seq![digit(d as nat)]);
    r
}

/// Appends the decimal rendering of `n` to `s`.
pub fn push_decimal(s: &mut String, n: u64)
    ensures
        final(s)@ == old(s)@ + decimal(n as nat),
    decreases n,
{
    if n < 10 {
        s.append(digit_str(n));
    } else {
        push_decimal(s, n / 10);
        s.append(digit_str(n % 10));
        assert(decimal(n as nat) == decimal((n / 10) as nat).push(digit((n % 10) as nat)));
        assert(final(s)@ =~= old(s)@ + decimal(n as nat));
    }
}

/// `box/local`.
pub fn qualify(bx: &str, local: &str) -> (r: String)
    ensures
        r@ == qualified(bx@, local@),
{
    proof {
        reveal_strlit("/");
    }
    let mut r = String::from_str(bx);
    r.append("/");
    r.append(local);
    r
}

/// `kind@n`.
pub fn occurrence_name(kind: &str, n: u64) -> (r: String)
    ensures
        r@ == occurrence(kind@, n as nat),
{
    proof {
        reveal_strlit("@");
    }
    let mut r = String::from_str(kind);
    r.append("@");
    push_decimal(&mut r, n);
    r
}

/// Whether the stored name `cand` answers a request for `req` (see
/// `name_matches`).
pub fn names_match(cand: &str, req: &str) -> (r: bool)
    ensures
        r == name_matches(cand@, req@),
{
    let n = cand.unicode_len();
    let mut i: usize = 0;
    while i < n && cand.get_char(i) != '@'
        invariant
            n == cand@.len(),
            i <= n,
            !cand@.take(i as int).contains('@'),
        decreases n - i,
    {
        assert(cand@.take(i + 1) =~= cand@.take(i as int).push(cand@[i as int]));
        i = i + 1;
    }
    if i == n {
        assert(cand@ =~= cand@.take(n as int));
        return str_equal(cand, req);
    }
    assert(cand@.contains('@')) by {
        assert(cand@[i as int] == '@');
    }
    let head = cand.substring_char(0, i);
    let r = str_equal(head, req);
    assert(head@ =~= cand@.take(i as int));
    proof {
        if req@.len() < cand@.len() && cand@[req@.len() as int] == '@' && cand@.take(req@.len() as int)
            == req@ && !req@.contains('@') {
            if req@.len() < i {
                assert(cand@.take(i as int).contains('@')) by {
                    assert(cand@.take(i as int)[req@.len() as int] == '@');
                }
            } else if req@.len() > i {
                assert(req@.contains('@')) by {
                    assert(req@[i as int] == cand@.take(req@.len() as int)[i as int]);
                assert(req@[i as int] == '@');
                }
            }
        }
    }
    if r {
        assert(!req@.contains('@'));
    }
    r
}

/// `p` is a prefix of `s`.
pub open spec fn is_prefix(p: Seq<char>, s: Seq<char>) -> bool {
    p.len() <= s.len() && s.take(p.len() as int) == p
}

/// Whether `s` starts with `p`.
pub fn starts_with(s: &str, p: &str) -> (r: bool)
    ensures
        r == is_prefix(p@, s@),
{
    let n = p.unicode_len();
    if n > s.unicode_len() {
        return false;
    }
    let mut i: usize = 0;
    while i < n
        invariant
            n == p@.len(),
            n <= s@.len(),
            i <= n,
            s@.take(i as int) == p@.take(i as int),
        decreases n - i,
    {
        if s.get_char(i) != p.get_char(i) {
            assert(s@.take(n as int)[i as int] != p@[i as int]);
            return false;
        }
        assert(s@.take(i + 1) =~= s@.take(i as int).push(s@[i as int]));
        assert(p@.take(i + 1) =~= p@.take(i as int).push(p@[i as int]));
        i = i + 1;
    }
    assert(p@ =~= p@.take(n as int));
    true
}

/// The order in which the nodes that answer one request are taken: shorter
/// names first, then alphabetical. On names `kind@n` it is the order of `n`.
pub open spec fn occurrence_lt(a: Seq<char>, b: Seq<char>) -> bool {
    a.len() < b.len() || (a.len() == b.len() && name_lt(a, b))
}

pub proof fn lemma_occurrence_lt_transitive(a: Seq<char>, b: Seq<char>, c: Seq<char>)
    requires
        occurrence_lt(a, b),
        occurrence_lt(b, c),
    ensures
        occurrence_lt(a, c),
{
    if a.len() == b.len() && b.len() == c.len() {
        lemma_name_lt_transitive(a, b, c);
    }
}

pub proof fn lemma_occurrence_lt_total(a: Seq<char>, b: Seq<char>)
    requires
        a != b,
    ensures
        occurrence_lt(a, b) || occurrence_lt(b, a),
{
    if a.len() == b.len() {
        lemma_name_lt_total(a, b);
    }
}

pub proof fn lemma_occurrence_lt_irreflexive(a: Seq<char>)
    ensures
        !occurrence_lt(a, a),
{
    lemma_name_lt_irreflexive(a);
}

/// A common prefix does not change the order of names.
pub proof fn lemma_name_lt_prefix(p: Seq<char>, x: Seq<char>, y: Seq<char>)
    ensures
        name_lt(p + x, p + y) == name_lt(x, y),
    decreases p.len(),
{
    if p.len() > 0 {
        assert((p + x).drop_first() =~= p.drop_first() + x);
        assert((p + y).drop_first() =~= p.drop_first() + y);
        lemma_name_lt_prefix(p.drop_first(), x, y);
    } else {
        assert(p + x =~= x);
        assert(p + y =~= y);
    }
}

/// Between names of one length, what follows does not change the order.
pub proof fn lemma_name_lt_extend(x: Seq<char>, y: Seq<char>, s: Seq<char>, t: Seq<char>)
    requires
        x.len() == y.len(),
        name_lt(x, y),
    ensures
        name_lt(x + s, y + t),
    decreases x.len(),
{
    assert((x + s)[0] == x[0]);
    assert((y + t)[0] == y[0]);
    if x[0] == y[0] {
        assert((x + s).drop_first() =~= x.drop_first() + s);
        assert((y + t).drop_first() =~= y.drop_first() + t);
        lemma_name_lt_extend(x.drop_first(), y.drop_first(), s, t);
    }
}

proof fn lemma_digit_order(a: nat, b: nat)
    requires
        a < b < 10,
    ensures
        (digit(a) as int) < (digit(b) as int),
{
    assert(('0' as int) == 48 && ('1' as int) == 49 && ('2' as int) == 50 && ('3' as int) == 51
        && ('4' as int) == 52 && ('5' as int) == 53 && ('6' as int) == 54 && ('7' as int) == 55
        && ('8' as int) == 56 && ('9' as int) == 57);
}

proof fn lemma_decimal_len(n: nat)
    ensures
        decimal(n).len() >= 1,
        n >= 10 ==> decimal(n).len() >= 2,
    decreases n,
{
    if n >= 10 {
        lemma_decimal_len(n / 10);
    }
}

proof fn lemma_decimal_len_mono(a: nat, b: nat)
    requires
        a <= b,
    ensures
        decimal(a).len() <= decimal(b).len(),
    decreases b,
{
    lemma_decimal_len(b);
    if a >= 10 {
        lemma_decimal_len_mono(a / 10, b / 10);
    }
}

/// Decimal renderings follow the order of the numbers.
pub proof fn lemma_decimal_order(a: nat, b: nat)
    requires
        a < b,
    ensures
        occurrence_lt(decimal(a), decimal(b)),
    decreases b,
{
    lemma_decimal_len_mono(a, b);
    lemma_decimal_len(a);
    lemma_decimal_len(b);
    if decimal(a).len() == decimal(b).len() {
        if b < 10 {
            lemma_digit_order(a, b);
        } else {
            assert(a >= 10);
            let x = decimal(a / 10);
            let y = decimal(b / 10);
            assert(decimal(a) == x + seq![digit(a % 10)]);
            assert(decimal(b) == y + seq![digit(b % 10)]);
            if a / 10 < b / 10 {
                lemma_decimal_order(a / 10, b / 10);
                lemma_name_lt_extend(x, y, seq![digit(a % 10)], seq![digit(b % 10)]);
            } else {
                lemma_digit_order(a % 10, b % 10);
                lemma_name_lt_prefix(x, seq![digit(a % 10)], seq![digit(b % 10)]);
            }
        }
    }
}

/// The occurrences of one kind are taken in the order of their indices.
pub proof fn lemma_occurrence_order(kind: Seq<char>, a: nat, b: nat)
    requires
        a < b,
    ensures
        occurrence_lt(occurrence(kind, a), occurrence(kind, b)),
{
    lemma_decimal_order(a, b);
    let p = kind + seq!['@'];
    assert(occurrence(kind, a) =~= p + decimal(a));
    assert(occurrence(kind, b) =~= p + decimal(b));
    lemma_name_lt_prefix(p, decimal(a), decimal(b));
}

/// Whether `a` is taken before `b` (see `occurrence_lt`).
pub fn occurs_before(a: &str, b: &str) -> (r: bool)
    ensures
        r == occurrence_lt(a@, b@),
{
    let la = a.unicode_len();
    let lb = b.unicode_len();
    if la != lb {
        la < lb
    } else {
        name_less(a, b)
    }
}

} // verus!
