use vstd::prelude::*;
use vstd::string::*;
use crate::text::{digit_char, digit_val, is_digit, digit_to_char, char_to_digit,
    lemma_digit_char_val, str_views};

verus! {

// A stored document is a sequence of fields written back to back. A number
// is its decimal digits followed by ':'; a string is its length as a number
// followed by exactly that many characters; a list is its element count as a
// number followed by the elements. A timestamp is its fixed-width canonical
// text. Decoding is positional and must consume the whole document.

/// The decimal digits of `n`, most significant first.
pub open spec fn digits_of(n: nat) -> Seq<char>
    decreases n,
{
    if n < 10 {
        seq![digit_char(n as int)]
    } else {
        digits_of(n / 10) + seq![digit_char((n % 10) as int)]
    }
}

/// An encoded number: its digits and the closing ':'.
pub open spec fn enc_num(n: nat) -> Seq<char> {
    digits_of(n) + seq![':']
}

/// An encoded string: its length, then its characters verbatim.
pub open spec fn enc_str(x: Seq<char>) -> Seq<char> {
    enc_num(x.len()) + x
}

/// An encoded list of strings, back to back (the count stands before it).
pub open spec fn enc_strs(xs: Seq<Seq<char>>) -> Seq<char>
    decreases xs.len(),
{
    if xs.len() == 0 {
        Seq::empty()
    } else {
        enc_str(xs[0]) + enc_strs(xs.drop_first())
    }
}

pub open spec fn pow10(k: nat) -> nat
    decreases k,
{
    if k == 0 {
        1
    } else {
        10 * pow10((k - 1) as nat)
    }
}

/// The value of a run of digit characters, most significant first.
pub open spec fn digits_val(ds: Seq<char>) -> int
    decreases ds.len(),
{
    if ds.len() == 0 {
        0
    } else {
        digits_val(ds.drop_last()) * 10 + digit_val(ds.last())
    }
}

/// Reads digits from `i` on, accumulating onto `acc`; stops at the first
/// non-digit and yields the value and the stop position.
pub open spec fn scan_digits(s: Seq<char>, i: int, acc: int) -> (int, int)
    decreases s.len() - i,
{
    if 0 <= i < s.len() && is_digit(s[i]) {
        scan_digits(s, i + 1, acc * 10 + digit_val(s[i]))
    } else {
        (acc, i)
    }
}

/// Decodes a number at `i`: at least one digit, a closing ':', and a value
/// a 64-bit machine word can hold.
pub open spec fn dec_num(s: Seq<char>, i: int) -> Option<(int, int)> {
    let (v, j) = scan_digits(s, i, 0);
    if j > i && j < s.len() && s[j] == ':' && 0 <= v <= u64::MAX as int {
        Some((v, j + 1))
    } else {
        None
    }
}

/// Decodes a string at `i`: its length, then that many characters.
pub open spec fn dec_str(s: Seq<char>, i: int) -> Option<(Seq<char>, int)> {
    match dec_num(s, i) {
        None => None,
        Some((n, j)) => if j + n <= s.len() {
            Some((s.subrange(j, j + n), j + n))
        } else {
            None
        },
    }
}

/// Decodes `k` strings back to back, starting at `i`.
pub open spec fn dec_strs(s: Seq<char>, i: int, k: nat) -> Option<(Seq<Seq<char>>, int)>
    decreases k,
{
    if k == 0 {
        Some((Seq::empty(), i))
    } else {
        match dec_str(s, i) {
            None => None,
            Some((x, j)) => match dec_strs(s, j, (k - 1) as nat) {
                None => None,
                Some((xs, l)) => Some((seq![x] + xs, l)),
            },
        }
    }
}

proof fn lemma_digits_val_front(ds: Seq<char>)
    requires
        ds.len() > 0,
    ensures
        digits_val(ds) == digit_val(ds[0]) * pow10((ds.len() - 1) as nat) + digits_val(
            ds.drop_first(),
        ),
    decreases ds.len(),
{
    if ds.len() == 1 {
        assert(ds.drop_last().len() == 0);
        assert(ds.drop_first().len() == 0);
        assert(ds.last() == ds[0]);
        assert(digits_val(ds) == digits_val(ds.drop_last()) * 10 + digit_val(ds.last()));
        assert(digits_val(ds.drop_last()) == 0);
        assert(digits_val(ds.drop_first()) == 0);
        assert(pow10((ds.len() - 1) as nat) == 1);
        assert(digit_val(ds[0]) * 1 == digit_val(ds[0])) by (nonlinear_arith);
    } else {
        let m = (ds.len() - 1) as nat;
        let d0 = digit_val(ds[0]);
        lemma_digits_val_front(ds.drop_last());
        assert(ds.drop_last()[0] == ds[0]);
        assert(ds.drop_last().drop_first() =~= ds.drop_first().drop_last());
        assert(ds.drop_first().last() == ds.last());
        let x = digits_val(ds.drop_first().drop_last());
        // the definitional unfoldings
        assert(digits_val(ds) == digits_val(ds.drop_last()) * 10 + digit_val(ds.last()));
        assert(ds.drop_first().len() > 0);
        assert(digits_val(ds.drop_first()) == digits_val(ds.drop_first().drop_last()) * 10
            + digit_val(ds.drop_first().last()));
        // the inductive step
        assert(digits_val(ds.drop_last()) == d0 * pow10((m - 1) as nat) + x);
        assert((d0 * pow10((m - 1) as nat) + x) * 10 == d0 * (10 * pow10((m - 1) as nat)) + x
            * 10) by (nonlinear_arith);
        assert(pow10(m) == 10 * pow10((m - 1) as nat));
    }
}

proof fn lemma_scan_digits_run(s: Seq<char>, i: int, j: int, acc: int)
    requires
        0 <= i <= j <= s.len(),
        forall|k: int| i <= k < j ==> is_digit(#[trigger] s[k]),
        j == s.len() || !is_digit(s[j]),
    ensures
        scan_digits(s, i, acc) == (acc * pow10((j - i) as nat) + digits_val(s.subrange(i, j)), j),
    decreases j - i,
{
    if i == j {
        assert(s.subrange(i, j).len() == 0);
        assert(acc * 1 == acc) by (nonlinear_arith);
    } else {
        assert(is_digit(s[i]));
        let d = digit_val(s[i]);
        lemma_scan_digits_run(s, i + 1, j, acc * 10 + d);
        let sub = s.subrange(i, j);
        lemma_digits_val_front(sub);
        assert(sub[0] == s[i]);
        assert(sub.drop_first() =~= s.subrange(i + 1, j));
        let m = (j - i) as nat;
        assert((acc * 10 + d) * pow10((m - 1) as nat) == acc * (10 * pow10((m - 1) as nat)) + d
            * pow10((m - 1) as nat)) by (nonlinear_arith);
        assert(pow10(m) == 10 * pow10((m - 1) as nat));
    }
}

proof fn lemma_scan_digits_ge_acc(s: Seq<char>, i: int, acc: int)
    requires
        acc >= 0,
    ensures
        scan_digits(s, i, acc).0 >= acc,
    decreases s.len() - i,
{
    if 0 <= i < s.len() && is_digit(s[i]) {
        assert(acc * 10 + digit_val(s[i]) >= acc) by (nonlinear_arith)
            requires
                acc >= 0 && digit_val(s[i]) >= 0,
        ;
        lemma_scan_digits_ge_acc(s, i + 1, acc * 10 + digit_val(s[i]));
    }
}

proof fn lemma_digits_of_props(n: nat)
    ensures
        digits_of(n).len() >= 1,
        forall|k: int| 0 <= k < digits_of(n).len() ==> is_digit(#[trigger] digits_of(n)[k]),
        digits_val(digits_of(n)) == n,
    decreases n,
{
    if n < 10 {
        lemma_digit_char_val(n as int);
        let ds = digits_of(n);
        assert(ds.drop_last().len() == 0);
        assert(ds.last() == digit_char(n as int));
        assert(digits_val(ds) == digits_val(ds.drop_last()) * 10 + digit_val(ds.last()));
        assert(digits_val(ds.drop_last()) == 0);
    } else {
        lemma_digits_of_props(n / 10);
        lemma_digit_char_val((n % 10) as int);
        let ds = digits_of(n);
        let head = digits_of(n / 10);
        assert(ds.drop_last() =~= head);
        assert(ds.last() == digit_char((n % 10) as int));
        assert(digits_val(ds) == digits_val(ds.drop_last()) * 10 + digit_val(ds.last()));
        vstd::arithmetic::div_mod::lemma_fundamental_div_mod(n as int, 10);
        assert(digits_val(ds) == (n / 10) * 10 + (n % 10));
        assert forall|k: int| 0 <= k < ds.len() implies is_digit(#[trigger] ds[k]) by {
            if k < head.len() {
                assert(ds[k] == head[k]);
            }
        }
    }
}

/// Splits knowledge of a two-part run of characters into its parts.
pub(crate) proof fn lemma_prefix_parts(s: Seq<char>, i: int, a: Seq<char>, b: Seq<char>)
    requires
        0 <= i,
        i + a.len() + b.len() <= s.len(),
        s.subrange(i, i + a.len() + b.len()) == a + b,
    ensures
        s.subrange(i, i + a.len()) == a,
        s.subrange(i + a.len(), i + a.len() + b.len()) == b,
{
    let whole = s.subrange(i, i + a.len() + b.len());
    assert(s.subrange(i, i + a.len()) =~= a) by {
        assert forall|k: int| 0 <= k < a.len() implies s.subrange(i, i + a.len())[k] == a[k] by {
            assert(s[i + k] == whole[k]);
            assert((a + b)[k] == a[k]);
        }
    }
    assert(s.subrange(i + a.len(), i + a.len() + b.len()) =~= b) by {
        assert forall|k: int| 0 <= k < b.len() implies s.subrange(
            i + a.len(),
            i + a.len() + b.len(),
        )[k] == b[k] by {
            assert(s[i + a.len() + k] == whole[a.len() + k]);
            assert((a + b)[a.len() + k] == b[k]);
        }
    }
}

/// A number reads back as itself from wherever its encoding stands.
pub(crate) proof fn lemma_dec_enc_num(s: Seq<char>, i: int, n: nat)
    requires
        n <= u64::MAX,
        0 <= i,
        i + enc_num(n).len() <= s.len(),
        s.subrange(i, i + enc_num(n).len()) == enc_num(n),
    ensures
        dec_num(s, i) == Some((n as int, i + enc_num(n).len())),
{
    lemma_digits_of_props(n);
    let ds = digits_of(n);
    let j = i + ds.len();
    assert forall|k: int| i <= k < j implies is_digit(#[trigger] s[k]) by {
        assert(s[k] == s.subrange(i, i + enc_num(n).len())[k - i]);
        assert(enc_num(n)[k - i] == ds[k - i]);
    }
    assert(s[j] == s.subrange(i, i + enc_num(n).len())[ds.len() as int]);
    assert(enc_num(n)[ds.len() as int] == ':');
    assert(!is_digit(':'));
    lemma_scan_digits_run(s, i, j, 0);
    assert(s.subrange(i, j) =~= ds) by {
        assert forall|k: int| 0 <= k < ds.len() implies s.subrange(i, j)[k] == ds[k] by {
            assert(s[i + k] == s.subrange(i, i + enc_num(n).len())[k]);
        }
    }
    assert(0 * pow10(ds.len()) == 0) by (nonlinear_arith);
}

/// A string reads back as itself from wherever its encoding stands.
pub(crate) proof fn lemma_dec_enc_str(s: Seq<char>, i: int, x: Seq<char>)
    requires
        x.len() <= u64::MAX,
        0 <= i,
        i + enc_str(x).len() <= s.len(),
        s.subrange(i, i + enc_str(x).len()) == enc_str(x),
    ensures
        dec_str(s, i) == Some((x, i + enc_str(x).len())),
{
    let pn = enc_num(x.len());
    assert(s.subrange(i, i + pn.len()) =~= pn) by {
        assert forall|k: int| 0 <= k < pn.len() implies s.subrange(i, i + pn.len())[k] == pn[k] by {
            assert(s[i + k] == s.subrange(i, i + enc_str(x).len())[k]);
            assert(enc_str(x)[k] == pn[k]);
        }
    }
    lemma_dec_enc_num(s, i, x.len());
    let j = i + pn.len();
    assert(s.subrange(j, j + x.len()) =~= x) by {
        assert forall|k: int| 0 <= k < x.len() implies s.subrange(j, j + x.len())[k] == x[k] by {
            assert(s[j + k] == s.subrange(i, i + enc_str(x).len())[pn.len() + k]);
            assert(enc_str(x)[pn.len() + k] == x[k]);
        }
    }
}

/// A list of strings reads back as itself from wherever its encoding stands.
pub(crate) proof fn lemma_dec_enc_strs(s: Seq<char>, i: int, xs: Seq<Seq<char>>)
    requires
        forall|k: int| 0 <= k < xs.len() ==> (#[trigger] xs[k]).len() <= u64::MAX,
        0 <= i,
        i + enc_strs(xs).len() <= s.len(),
        s.subrange(i, i + enc_strs(xs).len()) == enc_strs(xs),
    ensures
        dec_strs(s, i, xs.len()) == Some((xs, i + enc_strs(xs).len())),
    decreases xs.len(),
{
    if xs.len() == 0 {
        assert(dec_strs(s, i, 0) == Some((Seq::<Seq<char>>::empty(), i)));
        assert(xs =~= Seq::<Seq<char>>::empty());
    } else {
        let x = xs[0];
        let rest = xs.drop_first();
        let ex = enc_str(x);
        let er = enc_strs(rest);
        assert(enc_strs(xs) == ex + er);
        assert(s.subrange(i, i + ex.len()) =~= ex) by {
            assert forall|k: int| 0 <= k < ex.len() implies s.subrange(i, i + ex.len())[k]
                == ex[k] by {
                assert(s[i + k] == s.subrange(i, i + enc_strs(xs).len())[k]);
                assert((ex + er)[k] == ex[k]);
            }
        }
        lemma_dec_enc_str(s, i, x);
        let j = i + ex.len();
        assert(s.subrange(j, j + er.len()) =~= er) by {
            assert forall|k: int| 0 <= k < er.len() implies s.subrange(j, j + er.len())[k]
                == er[k] by {
                assert(s[j + k] == s.subrange(i, i + enc_strs(xs).len())[ex.len() + k]);
                assert((ex + er)[ex.len() + k] == er[k]);
            }
        }
        lemma_dec_enc_strs(s, j, rest);
        assert(seq![x] + rest =~= xs);
    }
}

/// Appends the decimal digits of `n`.
pub(crate) fn push_digits(s: &mut String, n: u64)
    ensures
        final(s)@ == old(s)@ + digits_of(n as nat),
    decreases n,
{
    if n < 10 {
        s.push(digit_to_char(n));
        proof {
            assert(final(s)@ =~= old(s)@ + digits_of(n as nat));
        }
    } else {
        push_digits(s, n / 10);
        s.push(digit_to_char(n % 10));
        proof {
            assert(final(s)@ =~= old(s)@ + digits_of(n as nat));
        }
    }
}

/// Appends an encoded number.
pub(crate) fn push_num(s: &mut String, n: u64)
    ensures
        final(s)@ == old(s)@ + enc_num(n as nat),
{
    push_digits(s, n);
    s.push(':');
    proof {
        assert(final(s)@ =~= old(s)@ + enc_num(n as nat));
    }
}

/// Appends an encoded string.
pub(crate) fn push_str_field(s: &mut String, x: &str)
    ensures
        final(s)@ == old(s)@ + enc_str(x@),
        x@.len() <= u64::MAX,
{
    let n = x.unicode_len();
    push_num(s, n as u64);
    s.append(x);
    proof {
        assert(final(s)@ =~= old(s)@ + enc_str(x@));
    }
}

/// Reads an encoded number; yields its value and the position after it.
pub(crate) fn read_num(v: &Vec<char>, start: usize) -> (r: Option<(u64, usize)>)
    requires
        start <= v@.len(),
    ensures
        match r {
            None => dec_num(v@, start as int) is None,
            Some(p) => dec_num(v@, start as int) == Some((p.0 as int, p.1 as int)) && start < p.1
                <= v@.len(),
        },
{
    let ghost s = v@;
    let mut i: usize = start;
    let mut acc: u64 = 0;
    loop
        invariant
            start <= i <= s.len(),
            s == v@,
            scan_digits(s, start as int, 0) == scan_digits(s, i as int, acc as int),
        decreases s.len() - i,
    {
        let digit_here: Option<u64> = if i < v.len() {
            char_to_digit(v[i])
        } else {
            None
        };
        match digit_here {
            Some(d) => {
                if acc > (u64::MAX - d) / 10 {
                    proof {
                        let a2 = acc as int * 10 + d as int;
                        assert(a2 > u64::MAX) by (nonlinear_arith)
                            requires
                                acc as int > (u64::MAX as int - d) / 10,
                                d < 10,
                                a2 == acc as int * 10 + d as int,
                        ;
                        lemma_scan_digits_ge_acc(s, i as int + 1, a2);
                        assert(scan_digits(s, i as int, acc as int) == scan_digits(
                            s,
                            i as int + 1,
                            a2,
                        ));
                    }
                    return None;
                }
                acc = acc * 10 + d;
                i = i + 1;
            },
            None => {
                proof {
                    assert(scan_digits(s, i as int, acc as int) == (acc as int, i as int));
                    lemma_scan_digits_ge_acc(s, start as int, 0);
                }
                if i == start {
                    return None;
                }
                if i < v.len() && v[i] == ':' {
                    return Some((acc, i + 1));
                }
                return None;
            },
        }
    }
}

/// Reads an encoded string; yields it and the position after it.
pub(crate) fn read_str(v: &Vec<char>, start: usize) -> (r: Option<(String, usize)>)
    requires
        start <= v@.len(),
    ensures
        match r {
            None => dec_str(v@, start as int) is None,
            Some(p) => dec_str(v@, start as int) == Some((p.0@, p.1 as int)) && start < p.1
                <= v@.len(),
        },
{
    match read_num(v, start) {
        None => None,
        Some((n, j)) => {
            if n > (v.len() - j) as u64 {
                None
            } else {
                let count = n as usize;
                let vlen = v.len();
                let mut x = String::new();
                let mut k: usize = 0;
                while k < count
                    invariant
                        vlen == v@.len(),
                        j + count <= vlen,
                        k <= count,
                        x@ == v@.subrange(j as int, j + k as int),
                    decreases count - k,
                {
                    x.push(v[j + k]);
                    proof {
                        assert(x@ =~= v@.subrange(j as int, j + k + 1 as int));
                    }
                    k = k + 1;
                }
                Some((x, j + count))
            }
        },
    }
}

/// Reads `k` encoded strings back to back.
pub(crate) fn read_strs(v: &Vec<char>, start: usize, k: u64) -> (r: Option<(Vec<String>, usize)>)
    requires
        start <= v@.len(),
    ensures
        match r {
            None => dec_strs(v@, start as int, k as nat) is None,
            Some(p) => dec_strs(v@, start as int, k as nat) == Some((str_views(p.0@), p.1 as int))
                && start <= p.1 <= v@.len(),
        },
{
    let mut acc: Vec<String> = Vec::new();
    let mut pos: usize = start;
    let mut m: u64 = 0;
    proof {
        if dec_strs(v@, start as int, k as nat) is Some {
            let p = dec_strs(v@, start as int, k as nat)->Some_0;
            assert(str_views(acc@) + p.0 =~= p.0);
        }
    }
    while m < k
        invariant
            start <= pos <= v@.len(),
            m <= k,
            dec_strs(v@, start as int, k as nat) == (match dec_strs(
                v@,
                pos as int,
                (k - m) as nat,
            ) {
                None => None::<(Seq<Seq<char>>, int)>,
                Some(p) => Some((str_views(acc@) + p.0, p.1)),
            }),
        decreases k - m,
    {
        match read_str(v, pos) {
            None => {
                return None;
            },
            Some((x, j)) => {
                proof {
                    let rem = (k - m) as nat;
                    assert(dec_strs(v@, pos as int, rem) == (match dec_strs(
                        v@,
                        j as int,
                        (rem - 1) as nat,
                    ) {
                        None => None::<(Seq<Seq<char>>, int)>,
                        Some(p) => Some((seq![x@] + p.0, p.1)),
                    }));
                    if dec_strs(v@, j as int, (rem - 1) as nat) is Some {
                        let p = dec_strs(v@, j as int, (rem - 1) as nat)->Some_0;
                        assert(str_views(acc@.push(x)) =~= str_views(acc@).push(x@));
                        assert(str_views(acc@) + (seq![x@] + p.0) =~= str_views(acc@.push(x))
                            + p.0);
                    }
                }
                acc.push(x);
                pos = j;
                m = m + 1;
            },
        }
    }
    proof {
        assert(dec_strs(v@, pos as int, 0) == Some((Seq::<Seq<char>>::empty(), pos as int)));
        assert(str_views(acc@) + Seq::<Seq<char>>::empty() =~= str_views(acc@));
    }
    Some((acc, pos))
}

} // verus!
