use vstd::prelude::*;

verus! {

/// The characters of a string, in order.
pub fn chars_of(s: &str) -> (v: Vec<char>)
    ensures
        v@ == s@,
{
    let mut v: Vec<char> = Vec::new();
    for c in it: s.chars()
        invariant
            v@ == it.seq().take(it.index() as int),
    {
        v.push(c);
    }
    v
}


/// Whether two strings hold the same characters.
pub fn same_text(a: &str, b: &str) -> (r: bool)
    ensures
        r == (a@ == b@),
{
    let x = chars_of(a);
    let y = chars_of(b);
    if x.len() != y.len() {
        return false;
    }
    let mut i: usize = 0;
    while i < x.len()
        invariant
            x@ == a@,
            y@ == b@,
            x@.len() == y@.len(),
            i <= x@.len(),
            forall|j: int| 0 <= j < i ==> x@[j] == y@[j],
        decreases x@.len() - i,
    {
        if x[i] != y[i] {
            return false;
        }
        i = i + 1;
    }
    assert(x@ =~= y@);
    true
}

/// The decimal digit character for `d < 10`.
pub open spec fn digit_char(d: nat) -> char {
    (('0' as u32) + d) as char
}

/// Decimal notation of `n`, without leading zeros.
pub open spec fn decimal(n: nat) -> Seq<char>
    decreases n,
{
    if n < 10 {
        seq![digit_char(n)]
    } else {
        decimal(n / 10).push(digit_char(n % 10))
    }
}

/// Decimal notation of `n` (what `{}` formatting prints).
pub fn decimal_text(n: u64) -> (r: String)
    ensures
        r@ == decimal(n as nat),
{
    let digits = "0123456789";
    proof {
        reveal_strlit("0123456789");
    }
    let mut ds: Vec<u64> = Vec::new();
    let mut m = n;
    let ghost mut suffixes: Seq<Seq<char>> = Seq::empty();
    while m >= 10
        invariant
            decimal(n as nat) == decimal(m as nat) + Seq::new(
                ds@.len(),
                |i: int| digit_char(ds@[ds@.len() - 1 - i] as nat),
            ),
            forall|i: int| 0 <= i < ds@.len() ==> ds@[i] < 10,
        decreases m,
    {
        let ghost before = ds@;
        ds.push(m % 10);
        proof {
            assert(decimal(m as nat) == decimal((m / 10) as nat).push(digit_char((m % 10) as nat)));
            assert(decimal((m / 10) as nat).push(digit_char((m % 10) as nat)) + Seq::new(
                before.len(),
                |i: int| digit_char(before[before.len() - 1 - i] as nat),
            ) =~= decimal((m / 10) as nat) + Seq::new(
                ds@.len(),
                |i: int| digit_char(ds@[ds@.len() - 1 - i] as nat),
            ));
        }
        m = m / 10;
    }
    let mut out = String::from_str(digits.substring_char(m as usize, m as usize + 1));
    proof {
        assert(digits@.subrange(m as int, m + 1) =~= seq![digit_char(m as nat)]);
    }
    let mut k = ds.len();
    while k > 0
        invariant
            k <= ds@.len(),
            forall|i: int| 0 <= i < ds@.len() ==> ds@[i] < 10,
            digits@ == "0123456789"@,
            digits@.len() == 10,
            forall|d: int| 0 <= d < 10 ==> digits@[d] == digit_char(d as nat),
            decimal(n as nat) == out@ + Seq::new(k as nat, |i: int| digit_char(ds@[k - 1 - i] as nat)),
        decreases k,
    {
        let d = ds[k - 1] as usize;
        let ghost prev = out@;
        out.append(digits.substring_char(d, d + 1));
        proof {
            assert(digits@.subrange(d as int, d + 1) =~= seq![digit_char(d as nat)]);
            assert(prev + Seq::new(k as nat, |i: int| digit_char(ds@[k - 1 - i] as nat)) =~= out@ + Seq::new(
                (k - 1) as nat,
                |i: int| digit_char(ds@[k - 2 - i] as nat),
            ));
        }
        k = k - 1;
    }
    assert(out@ + Seq::new(0, |i: int| digit_char(ds@[0 - 1 - i] as nat)) =~= out@);
    out
}

} // verus!
