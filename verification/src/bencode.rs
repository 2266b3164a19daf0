//! Bencode: the wire encoding of KRPC datagrams. A structured value is a
//! byte string, an integer, a list, or a dictionary with byte-string keys.
//! The decoder accepts exactly the canonical encodings (no leading zeros, no
//! negative zero, dictionary keys strictly ascending), so decoding is a
//! partial inverse of encoding.
use vstd::prelude::*;

verus! {

broadcast use vstd::std_specs::vec::group_vec_axioms;

/// A bencoded value.
#[derive(Debug, PartialEq, Eq)]
pub enum BValue {
    BString(Vec<u8>),
    Number(i64),
    List(Vec<BValue>),
    Dict(Vec<(Vec<u8>, BValue)>),
}

/// Spec model of a bencoded value.
pub enum BSpec {
    BString(Seq<u8>),
    Number(i64),
    List(Seq<BSpec>),
    Dict(Seq<(Seq<u8>, BSpec)>),
}

/// Spec model of a list of values, element by element.
pub open spec fn bspec_list_seq(l: Seq<BValue>) -> Seq<BSpec>
    decreases l,
{
    if l.len() == 0 {
        Seq::empty()
    } else {
        seq![bspec_of(l[0])] + bspec_list_seq(l.subrange(1, l.len() as int))
    }
}

/// Spec model of one dictionary entry.
pub open spec fn bspec_entry(e: (Vec<u8>, BValue)) -> (Seq<u8>, BSpec)
    decreases e,
{
    (e.0@, bspec_of(e.1))
}

/// Spec model of a dictionary, entry by entry.
pub open spec fn bspec_dict_seq(d: Seq<(Vec<u8>, BValue)>) -> Seq<(Seq<u8>, BSpec)>
    decreases d,
{
    if d.len() == 0 {
        Seq::empty()
    } else {
        seq![bspec_entry(d[0])] + bspec_dict_seq(d.subrange(1, d.len() as int))
    }
}

/// Spec model of a value: byte strings and numbers as they are, children
/// element by element.
pub open spec fn bspec_of(v: BValue) -> BSpec
    decreases v,
{
    match v {
        BValue::BString(s) => BSpec::BString(s@),
        BValue::Number(n) => BSpec::Number(n),
        BValue::List(l) => BSpec::List(bspec_list_seq(l@)),
        BValue::Dict(d) => BSpec::Dict(bspec_dict_seq(d@)),
    }
}

impl View for BValue {
    type V = BSpec;

    open spec fn view(&self) -> BSpec {
        bspec_of(*self)
    }
}

/// Index form of the list model.
pub proof fn lemma_bspec_list_props(l: Seq<BValue>)
    ensures
        bspec_list_seq(l).len() == l.len(),
        forall|i: int| 0 <= i < l.len() ==> #[trigger] bspec_list_seq(l)[i] == bspec_of(l[i]),
    decreases l,
{
    if l.len() > 0 {
        lemma_bspec_list_props(l.subrange(1, l.len() as int));
    }
}

/// Index form of the dictionary model.
pub proof fn lemma_bspec_dict_props(d: Seq<(Vec<u8>, BValue)>)
    ensures
        bspec_dict_seq(d).len() == d.len(),
        forall|i: int|
            0 <= i < d.len() ==> #[trigger] bspec_dict_seq(d)[i] == (d[i].0@, bspec_of(d[i].1)),
    decreases d,
{
    if d.len() > 0 {
        let t = d.subrange(1, d.len() as int);
        lemma_bspec_dict_props(t);
        assert forall|i: int|
            0 <= i < d.len() implies #[trigger] bspec_dict_seq(d)[i] == (
            d[i].0@,
            bspec_of(d[i].1),
        ) by {
            if i == 0 {
                assert(bspec_dict_seq(d)[0] == bspec_entry(d[0]));
            } else {
                assert(t[i - 1] == d[i]);
                assert(bspec_dict_seq(d)[i] == bspec_dict_seq(t)[i - 1]);
            }
        }
    }
}

/// An ASCII decimal digit.
pub open spec fn is_digit(b: u8) -> bool {
    48 <= b <= 57
}

/// Value of a string of decimal digits.
pub open spec fn digits_val(s: Seq<u8>) -> nat
    decreases s.len(),
{
    if s.len() == 0 {
        0
    } else {
        digits_val(s.drop_last()) * 10 + (s.last() - 48) as nat
    }
}

/// Decimal digits of a number, most significant first, no leading zeros.
pub open spec fn dec_u(n: nat) -> Seq<u8>
    decreases n,
{
    if n < 10 {
        seq![(n + 48) as u8]
    } else {
        dec_u(n / 10).push((n % 10 + 48) as u8)
    }
}

/// Decimal digits of a signed number, with a leading minus sign when
/// negative.
pub open spec fn dec_i(x: int) -> Seq<u8> {
    if x < 0 {
        seq![45u8] + dec_u((-x) as nat)
    } else {
        dec_u(x as nat)
    }
}

/// Appending a digit multiplies the value by ten and adds the digit.
pub proof fn lemma_digits_val_snoc(s: Seq<u8>, i: int, j: int)
    requires
        0 <= i <= j < s.len(),
    ensures
        digits_val(s.subrange(i, j + 1)) == digits_val(s.subrange(i, j)) * 10 + (s[j] - 48) as nat,
{
    assert(s.subrange(i, j + 1).drop_last() =~= s.subrange(i, j));
    assert(s.subrange(i, j + 1).last() == s[j]);
}

/// The canonical byte encoding of a byte string: `<len>:<bytes>`.
pub open spec fn bstr_bytes(s: Seq<u8>) -> Seq<u8> {
    dec_u(s.len()) + seq![58u8] + s
}

/// The canonical byte encoding of a value.
pub open spec fn bencode_bytes(v: BSpec) -> Seq<u8>
    decreases v, 1int,
{
    match v {
        BSpec::BString(s) => bstr_bytes(s),
        BSpec::Number(n) => seq![105u8] + dec_i(n as int) + seq![101u8],
        BSpec::List(l) => seq![108u8] + bencode_list(l) + seq![101u8],
        BSpec::Dict(d) => seq![100u8] + bencode_dict(d) + seq![101u8],
    }
}

pub open spec fn bencode_list(l: Seq<BSpec>) -> Seq<u8>
    decreases l, 0int,
{
    if l.len() == 0 {
        Seq::empty()
    } else {
        bencode_bytes(l[0]) + bencode_list(l.drop_first())
    }
}

pub open spec fn bencode_dict(d: Seq<(Seq<u8>, BSpec)>) -> Seq<u8>
    decreases d, 0int,
{
    if d.len() == 0 {
        Seq::empty()
    } else {
        bstr_bytes(d[0].0) + bencode_bytes(d[0].1) + bencode_dict(d.drop_first())
    }
}

/// Strict byte-lexicographic order, the required order of dictionary keys.
pub open spec fn lex_lt(a: Seq<u8>, b: Seq<u8>) -> bool
    decreases a.len(),
{
    if b.len() == 0 {
        false
    } else if a.len() == 0 {
        true
    } else if a[0] < b[0] {
        true
    } else if a[0] > b[0] {
        false
    } else {
        lex_lt(a.drop_first(), b.drop_first())
    }
}

/// Dictionary keys in strictly ascending byte order.
pub open spec fn sorted_keys(d: Seq<(Seq<u8>, BSpec)>) -> bool {
    forall|q: int| 0 <= q < d.len() - 1 ==> lex_lt((#[trigger] d[q]).0, d[q + 1].0)
}

/// Everything the decoder accepts: lengths and integers canonical (enforced
/// by parsing) and dictionary keys sorted.
pub open spec fn wf_bvalue(v: BSpec) -> bool
    decreases v,
{
    match v {
        BSpec::BString(s) => true,
        BSpec::Number(n) => true,
        BSpec::List(l) => forall|i: int| 0 <= i < l.len() ==> wf_bvalue(#[trigger] l[i]),
        BSpec::Dict(d) => sorted_keys(d) && forall|i: int|
            0 <= i < d.len() ==> wf_bvalue((#[trigger] d[i]).1),
    }
}

/// End of the run of decimal digits starting at `i`.
pub open spec fn digit_run_end(s: Seq<u8>, i: int) -> int
    decreases s.len() - i,
{
    if 0 <= i < s.len() && is_digit(s[i]) {
        digit_run_end(s, i + 1)
    } else {
        i
    }
}

pub proof fn lemma_digit_run_props(s: Seq<u8>, i: int)
    requires
        0 <= i <= s.len(),
    ensures
        i <= digit_run_end(s, i) <= s.len(),
        forall|z: int| i <= z < digit_run_end(s, i) ==> is_digit(#[trigger] s[z]),
        digit_run_end(s, i) < s.len() ==> !is_digit(s[digit_run_end(s, i)]),
    decreases s.len() - i,
{
    if 0 <= i < s.len() && is_digit(s[i]) {
        lemma_digit_run_props(s, i + 1);
    }
}

/// Parse a canonical unsigned decimal number at `i`: at least one digit, no
/// leading zero (except the single digit zero itself).
pub open spec fn parse_uint(s: Seq<u8>, i: int) -> Option<(nat, int)> {
    let e = digit_run_end(s, i);
    if e == i {
        None
    } else if s[i] == 48 && e != i + 1 {
        None
    } else {
        Some((digits_val(s.subrange(i, e)), e))
    }
}

/// Parse a byte string `<len>:<bytes>` at `i`.
pub open spec fn parse_bstr(s: Seq<u8>, i: int) -> Option<(Seq<u8>, int)> {
    match parse_uint(s, i) {
        None => None,
        Some((n, j)) => {
            if j < s.len() && s[j] == 58 && j + 1 + n <= s.len() {
                Some((s.subrange(j + 1, j + 1 + n), j + 1 + n))
            } else {
                None
            }
        },
    }
}

/// Parse any bencoded value at `i`.
pub open spec fn parse_bval(s: Seq<u8>, i: int) -> Option<(BSpec, int)>
    decreases s.len() - i, 0int,
{
    if i < 0 || i >= s.len() {
        None
    } else if s[i] == 105 {
        // 'i': integer
        let neg = i + 1 < s.len() && s[i + 1] == 45;
        let start = if neg {
            i + 2
        } else {
            i + 1
        };
        match parse_uint(s, start) {
            None => None,
            Some((n, j)) => {
                if j < s.len() && s[j] == 101 && (!neg || n > 0) {
                    let v: int = if neg {
                        -(n as int)
                    } else {
                        n as int
                    };
                    if i64::MIN <= v <= i64::MAX {
                        Some((BSpec::Number(v as i64), j + 1))
                    } else {
                        None
                    }
                } else {
                    None
                }
            },
        }
    } else if s[i] == 108 {
        // 'l': list
        match parse_list_items(s, i + 1) {
            None => None,
            Some((l, j)) => Some((BSpec::List(l), j)),
        }
    } else if s[i] == 100 {
        // 'd': dictionary
        match parse_dict_items(s, i + 1) {
            None => None,
            Some((d, j)) => {
                if sorted_keys(d) {
                    Some((BSpec::Dict(d), j))
                } else {
                    None
                }
            },
        }
    } else {
        match parse_bstr(s, i) {
            None => None,
            Some((b, j)) => Some((BSpec::BString(b), j)),
        }
    }
}

/// Parse list elements up to the closing 'e'.
pub open spec fn parse_list_items(s: Seq<u8>, i: int) -> Option<(Seq<BSpec>, int)>
    decreases s.len() - i, 1int,
{
    if i < 0 || i >= s.len() {
        None
    } else if s[i] == 101 {
        Some((Seq::empty(), i + 1))
    } else {
        match parse_bval(s, i) {
            None => None,
            Some((v, j)) => {
                if j <= i || j > s.len() {
                    None
                } else {
                    match parse_list_items(s, j) {
                        None => None,
                        Some((l, k)) => Some((seq![v] + l, k)),
                    }
                }
            },
        }
    }
}

/// Parse dictionary entries up to the closing 'e'.
pub open spec fn parse_dict_items(s: Seq<u8>, i: int) -> Option<(Seq<(Seq<u8>, BSpec)>, int)>
    decreases s.len() - i, 1int,
{
    if i < 0 || i >= s.len() {
        None
    } else if s[i] == 101 {
        Some((Seq::empty(), i + 1))
    } else {
        match parse_bstr(s, i) {
            None => None,
            Some((key, j)) => {
                if j <= i || j > s.len() {
                    None
                } else {
                    match parse_bval(s, j) {
                        None => None,
                        Some((v, k)) => {
                            if k <= j || k > s.len() {
                                None
                            } else {
                                match parse_dict_items(s, k) {
                                    None => None,
                                    Some((d, e)) => Some((seq![(key, v)] + d, e)),
                                }
                            }
                        },
                    }
                }
            },
        }
    }
}

/// Decode a whole datagram: one value, consuming every byte.
pub open spec fn bdecode_spec(s: Seq<u8>) -> Option<BSpec> {
    match parse_bval(s, 0) {
        None => None,
        Some((v, j)) => {
            if j == s.len() {
                Some(v)
            } else {
                None
            }
        },
    }
}

/// End of the digit run starting at `i`.
fn run_end_exec(s: &[u8], i: usize) -> (r: usize)
    requires
        i <= s@.len(),
    ensures
        r == digit_run_end(s@, i as int),
        i <= r <= s@.len(),
{
    proof {
        lemma_digit_run_props(s@, i as int);
    }
    let mut j = i;
    while j < s.len() && 48 <= s[j] && s[j] <= 57
        invariant
            i <= j <= s@.len(),
            digit_run_end(s@, i as int) == digit_run_end(s@, j as int),
        decreases s@.len() - j,
    {
        j += 1;
    }
    j
}

/// Parse a canonical unsigned decimal number; reports `None` also when the
/// value does not fit in 64 bits (no encoding that large can be valid, and
/// no 64-bit integer needs more digits).
fn parse_uint_exec(s: &[u8], i: usize) -> (r: Option<(u64, usize)>)
    requires
        i <= s@.len(),
    ensures
        r matches Some((n, e)) ==> parse_uint(s@, i as int) == Some((n as nat, e as int)) && i < e
            <= s@.len(),
        r is None ==> parse_uint(s@, i as int) is None || parse_uint(
            s@,
            i as int,
        ).unwrap().0 > u64::MAX,
{
    let e = run_end_exec(s, i);
    proof {
        lemma_digit_run_props(s@, i as int);
    }
    if e == i {
        return None;
    }
    if s[i] == 48 && e != i + 1 {
        return None;
    }
    let mut val: u64 = 0;
    let mut ovf = false;
    let mut j = i;
    proof {
        assert(s@.subrange(i as int, i as int) =~= Seq::<u8>::empty());
        assert(digits_val(Seq::<u8>::empty()) == 0);
    }
    while j < e
        invariant
            i <= j <= e <= s@.len(),
            e == digit_run_end(s@, i as int),
            forall|z: int| i <= z < e ==> is_digit(#[trigger] s@[z]),
            !ovf ==> val == digits_val(s@.subrange(i as int, j as int)),
            ovf ==> digits_val(s@.subrange(i as int, j as int)) > u64::MAX,
        decreases e - j,
    {
        let d = s[j] - 48;
        proof {
            lemma_digits_val_snoc(s@, i as int, j as int);
        }
        let ghost oldv = digits_val(s@.subrange(i as int, j as int));
        if !ovf {
            if val > (u64::MAX - d as u64) / 10 {
                ovf = true;
                proof {
                    let cap = (u64::MAX - d) as int;
                    assert((cap / 10) * 10 + cap % 10 == cap && 0 <= cap % 10 < 10);
                    assert(oldv * 10 + d > u64::MAX);
                }
            } else {
                proof {
                    let cap = (u64::MAX - d) as int;
                    assert((cap / 10) * 10 + cap % 10 == cap && 0 <= cap % 10 < 10);
                    assert(val * 10 + d <= u64::MAX) by (nonlinear_arith)
                        requires
                            val <= cap / 10,
                            (cap / 10) * 10 + cap % 10 == cap,
                            0 <= cap % 10 < 10,
                            cap == u64::MAX - d,
                            0 <= d,
                            0 <= val,
                    ;
                }
                val = val * 10 + d as u64;
            }
        } else {
            proof {
                assert(oldv * 10 + d > u64::MAX);
            }
        }
        j += 1;
    }
    if ovf {
        None
    } else {
        Some((val, e))
    }
}

/// Parse a byte string `<len>:<bytes>`.
fn parse_bstr_exec(s: &[u8], i: usize) -> (r: Option<(Vec<u8>, usize)>)
    requires
        i <= s@.len(),
    ensures
        r matches Some((b, e)) ==> parse_bstr(s@, i as int) == Some((b@, e as int)) && i < e
            <= s@.len(),
        r is None ==> parse_bstr(s@, i as int) is None,
{
    let slen = s.len();
    match parse_uint_exec(s, i) {
        None => {
            proof {
                let pu = parse_uint(s@, i as int);
                if pu is Some {
                    lemma_digit_run_props(s@, i as int);
                    assert(pu.unwrap().1 == digit_run_end(s@, i as int));
                    assert(pu.unwrap().1 >= 0);
                    assert(pu.unwrap().0 > u64::MAX);
                    assert(s@.len() == slen);
                    assert(usize::MAX as nat <= u64::MAX as nat);
                    assert(pu.unwrap().1 + 1 + pu.unwrap().0 > s@.len());
                }
            }
            None
        },
        Some((n, j)) => {
            if j < s.len() && s[j] == 58 {
                let rem = (s.len() - j - 1) as u64;
                if n <= rem {
                    let end = j + 1 + (n as usize);
                    let b = vstd::slice::slice_to_vec(vstd::slice::slice_subrange(s, j + 1, end));
                    Some((b, end))
                } else {
                    None
                }
            } else {
                None
            }
        },
    }
}

/// Strict byte-lexicographic comparison.
fn lex_lt_exec(a: &Vec<u8>, b: &Vec<u8>) -> (r: bool)
    ensures
        r == lex_lt(a@, b@),
{
    let mut k: usize = 0;
    proof {
        assert(a@.subrange(0, a@.len() as int) =~= a@);
        assert(b@.subrange(0, b@.len() as int) =~= b@);
    }
    while k < a.len() && k < b.len() && a[k] == b[k]
        invariant
            k <= a@.len(),
            k <= b@.len(),
            lex_lt(a@, b@) == lex_lt(
                a@.subrange(k as int, a@.len() as int),
                b@.subrange(k as int, b@.len() as int),
            ),
        decreases a@.len() - k,
    {
        proof {
            let sa = a@.subrange(k as int, a@.len() as int);
            let sb = b@.subrange(k as int, b@.len() as int);
            assert(sa[0] == a@[k as int] && sb[0] == b@[k as int]);
            assert(sa.drop_first() =~= a@.subrange(k as int + 1, a@.len() as int));
            assert(sb.drop_first() =~= b@.subrange(k as int + 1, b@.len() as int));
        }
        k += 1;
    }
    let ghost sa = a@.subrange(k as int, a@.len() as int);
    let ghost sb = b@.subrange(k as int, b@.len() as int);
    if k >= b.len() {
        proof {
            assert(sb.len() == 0);
        }
        false
    } else if k >= a.len() {
        proof {
            assert(sa.len() == 0 && sb.len() > 0);
        }
        true
    } else {
        proof {
            assert(sa[0] == a@[k as int] && sb[0] == b@[k as int]);
            assert(a@[k as int] != b@[k as int]);
        }
        a[k] < b[k]
    }
}

/// Check that dictionary keys are strictly ascending.
fn keys_sorted_exec(d: &Vec<(Vec<u8>, BValue)>) -> (r: bool)
    ensures
        r == sorted_keys(bspec_dict_seq(d@)),
{
    proof {
        lemma_bspec_dict_props(d@);
    }
    let ghost m = bspec_dict_seq(d@);
    let mut q: usize = 1;
    while q < d.len()
        invariant
            1 <= q,
            m == bspec_dict_seq(d@),
            m.len() == d@.len(),
            forall|z: int| 0 <= z < m.len() ==> #[trigger] m[z] == (d@[z].0@, bspec_of(d@[z].1)),
            forall|z: int| 0 <= z < q - 1 && z < m.len() - 1 ==> lex_lt(
                (#[trigger] m[z]).0,
                m[z + 1].0,
            ),
        decreases d@.len() - q,
    {
        if !lex_lt_exec(&d[q - 1].0, &d[q].0) {
            proof {
                assert(m[q as int - 1].0 == d@[q as int - 1].0@);
                assert(m[q as int].0 == d@[q as int].0@);
                assert(!sorted_keys(m));
            }
            return false;
        }
        q += 1;
    }
    true
}

/// Parse any value at position `i`.
fn parse_bval_exec(s: &[u8], i: usize) -> (r: Option<(BValue, usize)>)
    requires
        i <= s@.len(),
    ensures
        r matches Some((v, j)) ==> parse_bval(s@, i as int) == Some((v@, j as int)) && i < j
            <= s@.len(),
        r is None ==> parse_bval(s@, i as int) is None,
    decreases s@.len() - i, 0int,
{
    if i >= s.len() {
        return None;
    }
    if s[i] == 105 {
        // 'i': integer
        let neg = i + 1 < s.len() && s[i + 1] == 45;
        let start = if neg {
            i + 2
        } else {
            i + 1
        };
        match parse_uint_exec(s, start) {
            None => {
                proof {
                    let pu = parse_uint(s@, start as int);
                    if pu is Some {
                        assert(pu.unwrap().0 > u64::MAX);
                    }
                }
                None
            },
            Some((n, j)) => {
                if j < s.len() && s[j] == 101 && (!neg || n > 0) {
                    if neg {
                        if n <= 9223372036854775808u64 {
                            let v: i64 = if n == 9223372036854775808u64 {
                                i64::MIN
                            } else {
                                -(n as i64)
                            };
                            Some((BValue::Number(v), j + 1))
                        } else {
                            None
                        }
                    } else {
                        if n <= 9223372036854775807u64 {
                            Some((BValue::Number(n as i64), j + 1))
                        } else {
                            None
                        }
                    }
                } else {
                    None
                }
            },
        }
    } else if s[i] == 108 {
        // 'l': list
        match parse_list_items_exec(s, i + 1) {
            None => None,
            Some((l, j)) => Some((BValue::List(l), j)),
        }
    } else if s[i] == 100 {
        // 'd': dictionary
        match parse_dict_items_exec(s, i + 1) {
            None => None,
            Some((d, j)) => {
                if keys_sorted_exec(&d) {
                    Some((BValue::Dict(d), j))
                } else {
                    None
                }
            },
        }
    } else {
        match parse_bstr_exec(s, i) {
            None => None,
            Some((b, j)) => Some((BValue::BString(b), j)),
        }
    }
}

/// Parse list elements up to the closing 'e'.
fn parse_list_items_exec(s: &[u8], i: usize) -> (r: Option<(Vec<BValue>, usize)>)
    requires
        i <= s@.len(),
    ensures
        r matches Some((l, j)) ==> parse_list_items(s@, i as int) == Some((
            bspec_list_seq(l@),
            j as int,
        )) && i < j <= s@.len(),
        r is None ==> parse_list_items(s@, i as int) is None,
    decreases s@.len() - i, 1int,
{
    if i >= s.len() {
        return None;
    }
    if s[i] == 101 {
        let l: Vec<BValue> = Vec::new();
        proof {
            assert(bspec_list_seq(l@) =~= Seq::<BSpec>::empty());
        }
        return Some((l, i + 1));
    }
    match parse_bval_exec(s, i) {
        None => None,
        Some((v, j)) => {
            match parse_list_items_exec(s, j) {
                None => None,
                Some((l, k)) => {
                    let ghost l0 = l@;
                    let mut l = l;
                    l.insert(0, v);
                    proof {
                        assert(l@[0] == v);
                        assert(l@.subrange(1, l@.len() as int) =~= l0);
                        lemma_bspec_list_props(l@);
                        lemma_bspec_list_props(l0);
                        assert(bspec_list_seq(l@) =~= seq![v@] + bspec_list_seq(l0));
                    }
                    Some((l, k))
                },
            }
        },
    }
}

/// Parse dictionary entries up to the closing 'e'.
fn parse_dict_items_exec(s: &[u8], i: usize) -> (r: Option<(Vec<(Vec<u8>, BValue)>, usize)>)
    requires
        i <= s@.len(),
    ensures
        r matches Some((d, j)) ==> parse_dict_items(s@, i as int) == Some((
            bspec_dict_seq(d@),
            j as int,
        )) && i < j <= s@.len(),
        r is None ==> parse_dict_items(s@, i as int) is None,
    decreases s@.len() - i, 1int,
{
    if i >= s.len() {
        return None;
    }
    if s[i] == 101 {
        let d: Vec<(Vec<u8>, BValue)> = Vec::new();
        proof {
            assert(bspec_dict_seq(d@) =~= Seq::<(Seq<u8>, BSpec)>::empty());
        }
        return Some((d, i + 1));
    }
    match parse_bstr_exec(s, i) {
        None => None,
        Some((key, j)) => {
            match parse_bval_exec(s, j) {
                None => None,
                Some((v, k)) => {
                    match parse_dict_items_exec(s, k) {
                        None => None,
                        Some((d, e)) => {
                            let ghost d0 = d@;
                            let ghost keym = key@;
                            let ghost vm = v@;
                            let mut d = d;
                            d.insert(0, (key, v));
                            proof {
                                assert(d@[0].0@ == keym && d@[0].1 == v);
                                assert(d@.subrange(1, d@.len() as int) =~= d0);
                                lemma_bspec_dict_props(d@);
                                lemma_bspec_dict_props(d0);
                                assert(bspec_dict_seq(d@) =~= seq![(keym, vm)] + bspec_dict_seq(
                                    d0,
                                ));
                            }
                            Some((d, e))
                        },
                    }
                },
            }
        },
    }
}

/// Decode a whole datagram: exactly one value, consuming every byte.
pub fn bdecode(bytes: &[u8]) -> (r: Result<BValue, String>)
    ensures
        r matches Ok(v) ==> bdecode_spec(bytes@) == Some(v@),
        r matches Err(e) ==> bdecode_spec(bytes@) is None && e@ == "malformed bencode"@,
{
    match parse_bval_exec(bytes, 0) {
        Some((v, j)) => {
            if j == bytes.len() {
                Ok(v)
            } else {
                Err("malformed bencode".to_owned())
            }
        },
        None => Err("malformed bencode".to_owned()),
    }
}

/// Append the decimal digits of `n`.
fn push_dec(n: u64, out: &mut Vec<u8>)
    ensures
        final(out)@ == old(out)@ + dec_u(n as nat),
    decreases n,
{
    if n < 10 {
        out.push((n as u8) + 48);
        proof {
            assert(final(out)@ =~= old(out)@ + dec_u(n as nat));
        }
    } else {
        push_dec(n / 10, out);
        out.push(((n % 10) as u8) + 48);
        proof {
            assert(final(out)@ =~= old(out)@ + dec_u(n as nat));
        }
    }
}

/// Append the byte-string encoding `<len>:<bytes>`.
fn push_bstr(b: &Vec<u8>, out: &mut Vec<u8>)
    ensures
        final(out)@ == old(out)@ + bstr_bytes(b@),
{
    push_dec(b.len() as u64, out);
    out.push(58);
    out.extend_from_slice(b.as_slice());
    proof {
        assert(final(out)@ =~= old(out)@ + bstr_bytes(b@));
    }
}

/// Append the digits of a signed number, minus sign included.
fn push_int(x: i64, out: &mut Vec<u8>)
    ensures
        final(out)@ == old(out)@ + dec_i(x as int),
{
    if x < 0 {
        out.push(45);
        let mag: u64 = if x == i64::MIN {
            9223372036854775808u64
        } else {
            (-x) as u64
        };
        proof {
            assert(mag == -(x as int));
        }
        push_dec(mag, out);
        proof {
            assert(final(out)@ =~= old(out)@ + dec_i(x as int));
        }
    } else {
        push_dec(x as u64, out);
    }
}

/// Append a list's elements, in order, to the bucket of bytes.
fn encode_list_into(l: &Vec<BValue>, out: &mut Vec<u8>)
    ensures
        final(out)@ == old(out)@ + bencode_list(bspec_list_seq(l@)),
    decreases l,
{
    proof {
        lemma_bspec_list_props(l@);
    }
    let ghost m = bspec_list_seq(l@);
    let ghost base = out@;
    let mut i: usize = 0;
    proof {
        assert(bencode_list_prefix(m, 0) =~= Seq::<u8>::empty());
        assert(out@ =~= base + bencode_list_prefix(m, 0));
    }
    while i < l.len()
        invariant
            i <= l@.len(),
            m == bspec_list_seq(l@),
            m.len() == l@.len(),
            forall|z: int| 0 <= z < l@.len() ==> #[trigger] m[z] == bspec_of(l@[z]),
            out@ == base + bencode_list_prefix(m, i as int),
        decreases l@.len() - i,
    {
        proof {
            assert(decreases_to!(l => l@));
            assert(decreases_to!(l@ => l@[i as int]));
        }
        encode_into(&l[i], out);
        proof {
            assert(out@ =~= base + bencode_list_prefix(m, i as int + 1));
        }
        i += 1;
    }
    proof {
        lemma_bencode_list_prefix_all(m);
    }
}

/// Append a dictionary's entries, in order.
fn encode_dict_into(d: &Vec<(Vec<u8>, BValue)>, out: &mut Vec<u8>)
    ensures
        final(out)@ == old(out)@ + bencode_dict(bspec_dict_seq(d@)),
    decreases d,
{
    proof {
        lemma_bspec_dict_props(d@);
    }
    let ghost m = bspec_dict_seq(d@);
    let ghost base = out@;
    let mut i: usize = 0;
    proof {
        assert(bencode_dict_prefix(m, 0) =~= Seq::<u8>::empty());
        assert(out@ =~= base + bencode_dict_prefix(m, 0));
    }
    while i < d.len()
        invariant
            i <= d@.len(),
            m == bspec_dict_seq(d@),
            m.len() == d@.len(),
            forall|z: int|
                0 <= z < d@.len() ==> #[trigger] m[z] == (d@[z].0@, bspec_of(d@[z].1)),
            out@ == base + bencode_dict_prefix(m, i as int),
        decreases d@.len() - i,
    {
        push_bstr(&d[i].0, out);
        proof {
            assert(decreases_to!(d => d@));
            assert(decreases_to!(d@ => d@[i as int]));
            assert(decreases_to!(d@[i as int] => d@[i as int].1));
        }
        encode_into(&d[i].1, out);
        proof {
            assert(out@ =~= base + bencode_dict_prefix(m, i as int + 1));
        }
        i += 1;
    }
    proof {
        lemma_bencode_dict_prefix_all(m);
    }
}

/// Bytes of the first `k` list elements.
pub open spec fn bencode_list_prefix(m: Seq<BSpec>, k: int) -> Seq<u8>
    decreases k,
{
    if k <= 0 {
        Seq::empty()
    } else {
        bencode_list_prefix(m, k - 1) + bencode_bytes(m[k - 1])
    }
}

/// Bytes of the first `k` dictionary entries.
pub open spec fn bencode_dict_prefix(m: Seq<(Seq<u8>, BSpec)>, k: int) -> Seq<u8>
    decreases k,
{
    if k <= 0 {
        Seq::empty()
    } else {
        bencode_dict_prefix(m, k - 1) + bstr_bytes(m[k - 1].0) + bencode_bytes(m[k - 1].1)
    }
}

proof fn lemma_bencode_list_prefix_all(m: Seq<BSpec>)
    ensures
        bencode_list_prefix(m, m.len() as int) == bencode_list(m),
{
    lemma_bencode_list_prefix_from(m, 0);
    assert(m.subrange(0, m.len() as int) =~= m);
    assert(bencode_list_prefix(m, 0) == Seq::<u8>::empty());
    assert(Seq::<u8>::empty() + bencode_list(m) =~= bencode_list(m));
}

/// `bencode_list` of a suffix equals the remaining prefix-sum difference.
proof fn lemma_bencode_list_prefix_from(m: Seq<BSpec>, k: int)
    requires
        0 <= k <= m.len(),
    ensures
        bencode_list_prefix(m, m.len() as int) == bencode_list_prefix(m, k) + bencode_list(
            m.subrange(k, m.len() as int),
        ),
    decreases m.len() - k,
{
    if k == m.len() {
        assert(m.subrange(k, m.len() as int).len() == 0);
        assert(bencode_list_prefix(m, k) + bencode_list(m.subrange(k, m.len() as int))
            =~= bencode_list_prefix(m, k));
    } else {
        lemma_bencode_list_prefix_from(m, k + 1);
        let t = m.subrange(k, m.len() as int);
        assert(t[0] == m[k]);
        assert(t.subrange(1, t.len() as int) =~= m.subrange(k + 1, m.len() as int));
        assert(bencode_list(t) == bencode_bytes(m[k]) + bencode_list(
            m.subrange(k + 1, m.len() as int),
        ));
        assert(bencode_list_prefix(m, k + 1) == bencode_list_prefix(m, k) + bencode_bytes(m[k]));
        assert(bencode_list_prefix(m, k) + bencode_list(t) =~= bencode_list_prefix(m, k + 1)
            + bencode_list(m.subrange(k + 1, m.len() as int)));
    }
}

proof fn lemma_bencode_dict_prefix_all(m: Seq<(Seq<u8>, BSpec)>)
    ensures
        bencode_dict_prefix(m, m.len() as int) == bencode_dict(m),
{
    lemma_bencode_dict_prefix_from(m, 0);
    assert(m.subrange(0, m.len() as int) =~= m);
    assert(bencode_dict_prefix(m, 0) == Seq::<u8>::empty());
    assert(Seq::<u8>::empty() + bencode_dict(m) =~= bencode_dict(m));
}

proof fn lemma_bencode_dict_prefix_from(m: Seq<(Seq<u8>, BSpec)>, k: int)
    requires
        0 <= k <= m.len(),
    ensures
        bencode_dict_prefix(m, m.len() as int) == bencode_dict_prefix(m, k) + bencode_dict(
            m.subrange(k, m.len() as int),
        ),
    decreases m.len() - k,
{
    if k == m.len() {
        assert(m.subrange(k, m.len() as int).len() == 0);
        assert(bencode_dict_prefix(m, k) + bencode_dict(m.subrange(k, m.len() as int))
            =~= bencode_dict_prefix(m, k));
    } else {
        lemma_bencode_dict_prefix_from(m, k + 1);
        let t = m.subrange(k, m.len() as int);
        assert(t[0] == m[k]);
        assert(t.subrange(1, t.len() as int) =~= m.subrange(k + 1, m.len() as int));
        assert(bencode_dict(t) == bstr_bytes(m[k].0) + bencode_bytes(m[k].1) + bencode_dict(
            m.subrange(k + 1, m.len() as int),
        ));
        assert(bencode_dict_prefix(m, k + 1) == bencode_dict_prefix(m, k) + bstr_bytes(m[k].0)
            + bencode_bytes(m[k].1));
        assert(bencode_dict_prefix(m, k) + bencode_dict(t) =~= bencode_dict_prefix(m, k + 1)
            + bencode_dict(m.subrange(k + 1, m.len() as int)));
    }
}

/// Append the canonical encoding of a value.
fn encode_into(v: &BValue, out: &mut Vec<u8>)
    ensures
        final(out)@ == old(out)@ + bencode_bytes(v@),
    decreases v,
{
    match v {
        BValue::BString(b) => {
            push_bstr(b, out);
        },
        BValue::Number(n) => {
            out.push(105);
            push_int(*n, out);
            out.push(101);
            proof {
                assert(final(out)@ =~= old(out)@ + bencode_bytes(v@));
            }
        },
        BValue::List(l) => {
            out.push(108);
            encode_list_into(l, out);
            out.push(101);
            proof {
                assert(final(out)@ =~= old(out)@ + bencode_bytes(v@));
            }
        },
        BValue::Dict(d) => {
            out.push(100);
            encode_dict_into(d, out);
            out.push(101);
            proof {
                assert(final(out)@ =~= old(out)@ + bencode_bytes(v@));
            }
        },
    }
}

/// Encode a value as its canonical bencode bytes.
pub fn bencode_encode(v: &BValue) -> (r: Vec<u8>)
    ensures
        r@ == bencode_bytes(v@),
{
    let mut out: Vec<u8> = Vec::new();
    encode_into(v, &mut out);
    proof {
        assert(out@ =~= bencode_bytes(v@));
    }
    out
}

/// A digit string that does not start with zero has a positive value.
proof fn lemma_digits_val_pos(s: Seq<u8>)
    requires
        s.len() >= 1,
        forall|i: int| 0 <= i < s.len() ==> is_digit(#[trigger] s[i]),
        s[0] != 48,
    ensures
        digits_val(s) >= 1,
    decreases s.len(),
{
    if s.len() == 1 {
        assert(s.drop_last() =~= Seq::<u8>::empty());
    } else {
        lemma_digits_val_pos(s.drop_last());
    }
}

/// Digit strings without a leading zero are exactly the output of `dec_u`.
proof fn lemma_digits_canonical(s: Seq<u8>)
    requires
        s.len() >= 1,
        forall|i: int| 0 <= i < s.len() ==> is_digit(#[trigger] s[i]),
        s[0] == 48 ==> s.len() == 1,
    ensures
        dec_u(digits_val(s)) == s,
    decreases s.len(),
{
    if s.len() == 1 {
        assert(s.drop_last() =~= Seq::<u8>::empty());
        assert(digits_val(Seq::<u8>::empty()) == 0);
        assert(s.last() == s[0]);
        assert(digits_val(s) == (s[0] - 48) as nat);
        assert(dec_u(digits_val(s)) =~= s);
    } else {
        let t = s.drop_last();
        assert(t[0] == s[0] && t.len() >= 1);
        lemma_digits_canonical(t);
        lemma_digits_val_pos(t);
        let v = digits_val(s);
        assert(v == digits_val(t) * 10 + (s.last() - 48) as nat);
        assert(v >= 10);
        assert(v / 10 == digits_val(t) && v % 10 == (s.last() - 48) as nat) by (nonlinear_arith)
            requires
                v == digits_val(t) * 10 + (s.last() - 48) as nat,
                ((s.last() - 48) as nat) < 10,
        ;
        assert(dec_u(v) == dec_u(digits_val(t)).push((v % 10 + 48) as u8));
        assert(dec_u(v) =~= s);
    }
}

/// An accepted decimal number is the canonical rendering of its value.
proof fn lemma_parse_uint_sound(s: Seq<u8>, i: int)
    requires
        0 <= i <= s.len(),
    ensures
        parse_uint(s, i) matches Some((n, e)) ==> i < e <= s.len() && dec_u(n) == s.subrange(i, e),
{
    lemma_digit_run_props(s, i);
    if parse_uint(s, i) is Some {
        let e = digit_run_end(s, i);
        let digits = s.subrange(i, e);
        assert(digits[0] == s[i]);
        lemma_digits_canonical(digits);
    }
}

/// An accepted byte string is the canonical encoding of its content.
proof fn lemma_parse_bstr_sound(s: Seq<u8>, i: int)
    requires
        0 <= i <= s.len(),
    ensures
        parse_bstr(s, i) matches Some((b, j)) ==> i < j <= s.len() && bstr_bytes(b)
            == s.subrange(i, j),
{
    lemma_parse_uint_sound(s, i);
    if parse_bstr(s, i) is Some {
        let (n, e) = parse_uint(s, i).unwrap();
        let b = s.subrange(e + 1, e + 1 + n);
        assert(b.len() == n);
        assert(bstr_bytes(b) =~= s.subrange(i, e) + seq![s[e]] + b);
        assert(s.subrange(i, e) + seq![s[e]] + b =~= s.subrange(i, e + 1 + n));
    }
}

/// Soundness of the decoder: whatever it accepts is well formed and encodes
/// back to exactly the bytes consumed.
pub proof fn lemma_parse_sound(s: Seq<u8>, i: int)
    requires
        0 <= i <= s.len(),
    ensures
        parse_bval(s, i) matches Some((v, j)) ==> i < j <= s.len() && wf_bvalue(v)
            && bencode_bytes(v) == s.subrange(i, j),
    decreases s.len() - i, 0int,
{
    if i >= s.len() {
        return ;
    }
    if s[i] == 105 {
        // integer
        if parse_bval(s, i) is Some {
            let neg = i + 1 < s.len() && s[i + 1] == 45;
            let start: int = if neg {
                i + 2
            } else {
                i + 1
            };
            lemma_parse_uint_sound(s, start);
            let (n, e) = parse_uint(s, start).unwrap();
            let x = if neg {
                -(n as int)
            } else {
                n as int
            };
            assert(dec_i(x) == if neg {
                seq![45u8] + dec_u(n)
            } else {
                dec_u(n)
            });
            let v = BSpec::Number(x as i64);
            assert((x as i64) as int == x);
            assert(bencode_bytes(v) =~= s.subrange(i, e + 1));
        }
    } else if s[i] == 108 {
        // list
        lemma_parse_list_sound(s, i + 1);
        if parse_bval(s, i) is Some {
            let (l, j) = parse_list_items(s, i + 1).unwrap();
            assert(bencode_bytes(BSpec::List(l)) =~= seq![s[i]] + (bencode_list(l) + seq![101u8]));
            assert(seq![s[i]] + s.subrange(i + 1, j) =~= s.subrange(i, j));
        }
    } else if s[i] == 100 {
        // dictionary
        lemma_parse_dict_sound(s, i + 1);
        if parse_bval(s, i) is Some {
            let (d, j) = parse_dict_items(s, i + 1).unwrap();
            assert(bencode_bytes(BSpec::Dict(d)) =~= seq![s[i]] + (bencode_dict(d) + seq![101u8]));
            assert(seq![s[i]] + s.subrange(i + 1, j) =~= s.subrange(i, j));
        }
    } else {
        lemma_parse_bstr_sound(s, i);
    }
}

proof fn lemma_parse_list_sound(s: Seq<u8>, i: int)
    requires
        0 <= i <= s.len(),
    ensures
        parse_list_items(s, i) matches Some((l, j)) ==> i < j <= s.len() && (forall|k: int|
            0 <= k < l.len() ==> wf_bvalue(#[trigger] l[k])) && bencode_list(l) + seq![101u8]
            == s.subrange(i, j),
    decreases s.len() - i, 1int,
{
    if i >= s.len() {
        return ;
    }
    if s[i] == 101 {
        assert(bencode_list(Seq::<BSpec>::empty()) + seq![101u8] =~= s.subrange(i, i + 1));
    } else {
        lemma_parse_sound(s, i);
        match parse_bval(s, i) {
            None => {},
            Some((v, j)) => {
                lemma_parse_list_sound(s, j);
                match parse_list_items(s, j) {
                    None => {},
                    Some((l, k)) => {
                        let whole = seq![v] + l;
                        assert(whole[0] == v);
                        assert(whole.subrange(1, whole.len() as int) =~= l);
                        assert(bencode_list(whole) == bencode_bytes(v) + bencode_list(l));
                        assert(bencode_list(whole) + seq![101u8] =~= s.subrange(i, j)
                            + (bencode_list(l) + seq![101u8]));
                        assert(s.subrange(i, j) + s.subrange(j, k) =~= s.subrange(i, k));
                    },
                }
            },
        }
    }
}

proof fn lemma_parse_dict_sound(s: Seq<u8>, i: int)
    requires
        0 <= i <= s.len(),
    ensures
        parse_dict_items(s, i) matches Some((d, j)) ==> i < j <= s.len() && (forall|k: int|
            0 <= k < d.len() ==> wf_bvalue((#[trigger] d[k]).1)) && bencode_dict(d) + seq![101u8]
            == s.subrange(i, j),
    decreases s.len() - i, 1int,
{
    if i >= s.len() {
        return ;
    }
    if s[i] == 101 {
        assert(bencode_dict(Seq::<(Seq<u8>, BSpec)>::empty()) + seq![101u8] =~= s.subrange(
            i,
            i + 1,
        ));
    } else {
        lemma_parse_bstr_sound(s, i);
        match parse_bstr(s, i) {
            None => {},
            Some((key, j)) => {
                lemma_parse_sound(s, j);
                match parse_bval(s, j) {
                    None => {},
                    Some((v, k)) => {
                        lemma_parse_dict_sound(s, k);
                        match parse_dict_items(s, k) {
                            None => {},
                            Some((d, e)) => {
                                let whole = seq![(key, v)] + d;
                                assert(whole[0] == (key, v));
                                assert(whole.subrange(1, whole.len() as int) =~= d);
                                assert(bencode_dict(whole) == bstr_bytes(key) + bencode_bytes(v)
                                    + bencode_dict(d));
                                assert(bencode_dict(whole) + seq![101u8] =~= s.subrange(i, j)
                                    + s.subrange(j, k) + (bencode_dict(d) + seq![101u8]));
                                assert(s.subrange(i, j) + s.subrange(j, k) + s.subrange(k, e)
                                    =~= s.subrange(i, e));
                            },
                        }
                    },
                }
            },
        }
    }
}

/// Decoding is a partial inverse of encoding: an accepted datagram is the
/// canonical encoding of the well-formed value it decodes to.
pub proof fn lemma_bdecode_sound(bytes: Seq<u8>)
    ensures
        bdecode_spec(bytes) matches Some(v) ==> wf_bvalue(v) && bencode_bytes(v) == bytes,
{
    lemma_parse_sound(bytes, 0);
    if bdecode_spec(bytes) is Some {
        assert(bytes.subrange(0, bytes.len() as int) =~= bytes);
    }
}

} // verus!
