//! Codec for the bencode serialization format: integers, byte strings,
//! lists, and key-ordered dictionaries.
//!
//! The grammar is specified by `spec_decode` (a strict, canonical parser)
//! and the canonical encoder by `spec_encode`; the executable `decode` and
//! `encode` are proved to implement them exactly.
use vstd::prelude::*;

verus! {

broadcast use vstd::std_specs::vec::group_vec_axioms;

/// A decoded value tree: signed 64-bit integers, raw byte strings,
/// ordered lists, and dictionaries of byte-string keys to values.
#[derive(Debug, PartialEq, Eq)]
pub enum Value {
    Int(i64),
    Bytes(Vec<u8>),
    List(Vec<Value>),
    Dict(Vec<(Vec<u8>, Value)>),
}

/// The mathematical model of a `Value`.
#[verifier::ext_equal]
pub enum SpecValue {
    Int(int),
    Bytes(Seq<u8>),
    List(Seq<SpecValue>),
    Dict(Seq<(Seq<u8>, SpecValue)>),
}

/// The model of a `Value`.
pub open spec fn value_view(v: Value) -> SpecValue
    decreases v,
{
    match v {
        Value::Int(i) => SpecValue::Int(i as int),
        Value::Bytes(b) => SpecValue::Bytes(b@),
        Value::List(vs) => SpecValue::List(views_of(vs@)),
        Value::Dict(ps) => SpecValue::Dict(pair_views(ps@)),
    }
}

/// The models of a sequence of values.
pub open spec fn views_of(s: Seq<Value>) -> Seq<SpecValue>
    decreases s,
{
    if s.len() == 0 {
        Seq::empty()
    } else {
        seq![value_view(s[0])] + views_of(s.drop_first())
    }
}

/// The models of a sequence of key-value pairs.
pub open spec fn pair_views(s: Seq<(Vec<u8>, Value)>) -> Seq<(Seq<u8>, SpecValue)>
    decreases s,
{
    if s.len() == 0 {
        Seq::empty()
    } else {
        seq![(s[0].0@, value_view(s[0].1))] + pair_views(s.drop_first())
    }
}

impl View for Value {
    type V = SpecValue;

    open spec fn view(&self) -> SpecValue {
        value_view(*self)
    }
}

// ---------------------------------------------------------------------------
// Decimal digit strings
// ---------------------------------------------------------------------------
/// ASCII digit.
pub open spec fn is_digit(b: u8) -> bool {
    48 <= b <= 57
}

/// The ASCII byte for a single decimal digit.
pub open spec fn digit_byte(d: nat) -> u8
    recommends
        d < 10,
{
    (48 + d) as u8
}

/// The canonical decimal rendering of a natural number: no leading zeros,
/// except the literal `0`.
pub open spec fn dec_digits(n: nat) -> Seq<u8>
    decreases n,
{
    if n < 10 {
        seq![digit_byte(n)]
    } else {
        dec_digits(n / 10) + seq![digit_byte(n % 10)]
    }
}

pub open spec fn all_digits(s: Seq<u8>) -> bool {
    forall|k: int| 0 <= k < s.len() ==> is_digit(#[trigger] s[k])
}

/// A digit string in canonical form: nonempty, and no leading zero except
/// the literal `0` itself.
pub open spec fn canonical_digits(s: Seq<u8>) -> bool {
    s.len() >= 1 && all_digits(s) && (s.len() > 1 ==> s[0] != 48)
}

/// The numeric value of a digit string.
pub open spec fn digits_val(s: Seq<u8>) -> nat
    decreases s.len(),
{
    if s.len() == 0 {
        0
    } else {
        digits_val(s.drop_last()) * 10 + (s.last() - 48) as nat
    }
}

/// Length of the run of digit bytes starting at `i`.
pub open spec fn digit_run_len(s: Seq<u8>, i: int) -> int
    decreases s.len() - i,
{
    if 0 <= i < s.len() && is_digit(s[i]) {
        1 + digit_run_len(s, i + 1)
    } else {
        0
    }
}

// ---------------------------------------------------------------------------
// Byte-lexicographic order on keys
// ---------------------------------------------------------------------------
/// Strict byte-lexicographic order: a proper prefix comes first, otherwise
/// the first differing byte decides.
pub open spec fn lex_lt(a: Seq<u8>, b: Seq<u8>) -> bool
    decreases a.len(),
{
    if b.len() == 0 {
        false
    } else if a.len() == 0 {
        true
    } else if a[0] < b[0] {
        true
    } else if a[0] > b[0] {
        false
    } else {
        lex_lt(a.drop_first(), b.drop_first())
    }
}

/// Dictionary keys in strictly ascending byte-lexicographic order (which
/// also makes them unique).
pub open spec fn keys_ascending(ps: Seq<(Seq<u8>, SpecValue)>) -> bool {
    forall|k: int| 0 <= k < ps.len() - 1 ==> #[trigger] lex_lt(ps[k].0, ps[k + 1].0)
}

// ---------------------------------------------------------------------------
// Well-formedness
// ---------------------------------------------------------------------------
/// A well-formed value: every integer fits a signed 64-bit word and every
/// dictionary has strictly ascending keys. Every decoded value is
/// well-formed, and well-formed values encode canonically.
pub open spec fn wf(v: SpecValue) -> bool
    decreases v,
{
    match v {
        SpecValue::Int(i) => -0x8000_0000_0000_0000 <= i <= 0x7fff_ffff_ffff_ffff,
        SpecValue::Bytes(_) => true,
        SpecValue::List(vs) => forall|k: int| 0 <= k < vs.len() ==> wf(#[trigger] vs[k]),
        SpecValue::Dict(ps) => keys_ascending(ps) && forall|k: int|
            0 <= k < ps.len() ==> wf(#[trigger] ps[k].1),
    }
}

// ---------------------------------------------------------------------------
// Canonical encoding
// ---------------------------------------------------------------------------
/// The decimal literal of a signed integer: an optional minus sign and the
/// canonical digits of the magnitude.
pub open spec fn spec_int_lit(i: int) -> Seq<u8> {
    if i < 0 {
        seq![45u8] + dec_digits((-i) as nat)
    } else {
        dec_digits(i as nat)
    }
}

/// The encoding of a byte string: decimal length, `:`, raw bytes.
pub open spec fn spec_encode_bytestring(b: Seq<u8>) -> Seq<u8> {
    dec_digits(b.len() as nat) + seq![58u8] + b
}

/// The canonical encoding of a value. Dictionaries are emitted in stored
/// key order, so the encoding of a well-formed value has ascending keys.
pub open spec fn spec_encode(v: SpecValue) -> Seq<u8>
    decreases v,
{
    match v {
        SpecValue::Int(i) => seq![105u8] + spec_int_lit(i) + seq![101u8],
        SpecValue::Bytes(b) => spec_encode_bytestring(b),
        SpecValue::List(vs) => seq![108u8] + spec_encode_items(vs) + seq![101u8],
        SpecValue::Dict(ps) => seq![100u8] + spec_encode_pairs(ps) + seq![101u8],
    }
}

pub open spec fn spec_encode_items(vs: Seq<SpecValue>) -> Seq<u8>
    decreases vs,
{
    if vs.len() == 0 {
        Seq::empty()
    } else {
        spec_encode(vs[0]) + spec_encode_items(vs.drop_first())
    }
}

pub open spec fn spec_encode_pairs(ps: Seq<(Seq<u8>, SpecValue)>) -> Seq<u8>
    decreases ps,
{
    if ps.len() == 0 {
        Seq::empty()
    } else {
        spec_encode_bytestring(ps[0].0) + spec_encode(ps[0].1) + spec_encode_pairs(
            ps.drop_first(),
        )
    }
}

// ---------------------------------------------------------------------------
// The grammar: a strict parser at the specification level
// ---------------------------------------------------------------------------
/// Decodes one integer at `i` (`s[i]` is `i`). Rejects a missing
/// terminator, leading zeros, `-0`, and values outside the signed 64-bit
/// range.
pub open spec fn spec_decode_int(s: Seq<u8>, i: int) -> Option<(SpecValue, int)> {
    let neg = i + 1 < s.len() && s[i + 1] == 45;
    let start = if neg {
        i + 2
    } else {
        i + 1
    };
    let run = digit_run_len(s, start);
    if run == 0 {
        None
    } else if s[start] == 48 && (run > 1 || neg) {
        None
    } else if start + run >= s.len() || s[start + run] != 101 {
        None
    } else {
        let n = digits_val(s.subrange(start, start + run));
        let v: int = if neg {
            -(n as int)
        } else {
            n as int
        };
        if v < -0x8000_0000_0000_0000 || v > 0x7fff_ffff_ffff_ffff {
            None
        } else {
            Some((SpecValue::Int(v), start + run + 1))
        }
    }
}

/// Decodes one byte string at `i` (`s[i]` is a digit). Rejects a leading
/// zero in the length, a missing `:`, and a declared length that exceeds
/// the remaining buffer.
pub open spec fn spec_decode_bytes(s: Seq<u8>, i: int) -> Option<(SpecValue, int)> {
    let run = digit_run_len(s, i);
    if run == 0 {
        None
    } else if s[i] == 48 && run > 1 {
        None
    } else if i + run >= s.len() || s[i + run] != 58 {
        None
    } else {
        let n = digits_val(s.subrange(i, i + run)) as int;
        if i + run + 1 + n > s.len() {
            None
        } else {
            Some((SpecValue::Bytes(s.subrange(i + run + 1, i + run + 1 + n)), i + run + 1 + n))
        }
    }
}

/// Decodes one value at byte offset `i`, returning the value and the offset
/// just past it. This is the grammar of the format, in strict mode: exactly
/// the canonical encodings are accepted.
pub open spec fn spec_decode(s: Seq<u8>, i: int) -> Option<(SpecValue, int)>
    decreases s.len() - i, 0int,
{
    if i < 0 || i >= s.len() {
        None
    } else if s[i] == 105 {
        spec_decode_int(s, i)
    } else if is_digit(s[i]) {
        spec_decode_bytes(s, i)
    } else if s[i] == 108 {
        match spec_decode_items(s, i + 1) {
            Option::None => None,
            Option::Some((vs, j)) => Some((SpecValue::List(vs), j)),
        }
    } else if s[i] == 100 {
        match spec_decode_pairs(s, i + 1, Option::None) {
            Option::None => None,
            Option::Some((ps, j)) => Some((SpecValue::Dict(ps), j)),
        }
    } else {
        None
    }
}

/// Decodes list items from `i` up to and including the `e` terminator.
pub open spec fn spec_decode_items(s: Seq<u8>, i: int) -> Option<(Seq<SpecValue>, int)>
    decreases s.len() - i, 1int,
{
    if i < 0 || i >= s.len() {
        None
    } else if s[i] == 101 {
        Some((Seq::empty(), i + 1))
    } else {
        match spec_decode(s, i) {
            Option::None => None,
            Option::Some((v, j)) => if j <= i || j > s.len() {
                None
            } else {
                match spec_decode_items(s, j) {
                    Option::None => None,
                    Option::Some((vs, k)) => Some((seq![v] + vs, k)),
                }
            },
        }
    }
}

/// Decodes dictionary pairs from `i` up to and including the `e`
/// terminator. Every key must be a byte string and must come strictly
/// after `prev` in byte-lexicographic order.
pub open spec fn spec_decode_pairs(s: Seq<u8>, i: int, prev: Option<Seq<u8>>) -> Option<
    (Seq<(Seq<u8>, SpecValue)>, int),
>
    decreases s.len() - i, 1int,
{
    if i < 0 || i >= s.len() {
        None
    } else if s[i] == 101 {
        Some((Seq::empty(), i + 1))
    } else {
        match spec_decode(s, i) {
            Option::Some((SpecValue::Bytes(key), j)) => if !(match prev {
                Option::Some(p) => lex_lt(p, key),
                Option::None => true,
            }) {
                None
            } else if j <= i || j > s.len() {
                None
            } else {
                match spec_decode(s, j) {
                    Option::None => None,
                    Option::Some((v, m)) => if m <= j || m > s.len() {
                        None
                    } else {
                        match spec_decode_pairs(s, m, Option::Some(key)) {
                            Option::None => None,
                            Option::Some((ps, k)) => Some((seq![(key, v)] + ps, k)),
                        }
                    },
                }
            },
            _ => None,
        }
    }
}

/// Decodes a complete buffer: one value with no trailing bytes.
pub open spec fn spec_decode_all(s: Seq<u8>) -> Option<SpecValue> {
    match spec_decode(s, 0) {
        Option::None => None,
        Option::Some((v, j)) => if j == s.len() {
            Some(v)
        } else {
            None
        },
    }
}

// ---------------------------------------------------------------------------
// Lemmas about digit strings
// ---------------------------------------------------------------------------
/// The canonical digits of any number form a canonical digit string, and
/// start with `0` only for the number zero itself.
pub proof fn lemma_dec_digits_canonical(n: nat)
    ensures
        canonical_digits(dec_digits(n)),
        dec_digits(n)[0] == 48 <==> n == 0,
        n < 10 <==> dec_digits(n).len() == 1,
    decreases n,
{
    if n < 10 {
        assert(dec_digits(n) == seq![digit_byte(n)]);
        assert(is_digit(digit_byte(n)));
    } else {
        lemma_dec_digits_canonical(n / 10);
        let u = dec_digits(n / 10);
        let w = u + seq![digit_byte(n % 10)];
        assert(dec_digits(n) == w);
        assert(w[0] == u[0]);
        assert(n / 10 > 0);
        assert(forall|k: int| 0 <= k < w.len() ==> is_digit(#[trigger] w[k])) by {
            assert(forall|k: int| 0 <= k < u.len() ==> w[k] == #[trigger] u[k]);
            assert(is_digit(digit_byte(n % 10)));
            assert(w[w.len() - 1] == digit_byte(n % 10));
        }
    }
}

/// Evaluating the canonical digits gives the number back.
pub proof fn lemma_digits_val_dec_digits(n: nat)
    ensures
        digits_val(dec_digits(n)) == n,
    decreases n,
{
    assert(digits_val(Seq::<u8>::empty()) == 0);
    if n < 10 {
        let s = seq![digit_byte(n)];
        assert(dec_digits(n) == s);
        assert(s.drop_last() =~= Seq::<u8>::empty());
        assert(s.last() == digit_byte(n));
        assert((digit_byte(n) - 48) as nat == n);
        assert(digits_val(s) == digits_val(s.drop_last()) * 10 + (s.last() - 48) as nat);
    } else {
        lemma_digits_val_dec_digits(n / 10);
        let u = dec_digits(n / 10);
        let s = u + seq![digit_byte(n % 10)];
        assert(dec_digits(n) == s);
        assert(s.drop_last() =~= u);
        assert(s.last() == digit_byte(n % 10));
        assert((digit_byte(n % 10) - 48) as nat == n % 10);
        assert(digits_val(s) == (n / 10) * 10 + n % 10);
        assert((n / 10) * 10 + n % 10 == n) by (nonlinear_arith);
    }
}

/// A nonempty digit string that does not start with `0` has value at least 1.
pub proof fn lemma_digits_val_pos(s: Seq<u8>)
    requires
        all_digits(s),
        s.len() >= 1,
        s[0] != 48,
    ensures
        digits_val(s) >= 1,
    decreases s.len(),
{
    if s.len() == 1 {
        assert(s.drop_last() =~= Seq::<u8>::empty());
        assert(s.last() == s[0]);
    } else {
        let u = s.drop_last();
        assert(forall|k: int| 0 <= k < u.len() ==> u[k] == #[trigger] s[k]);
        lemma_digits_val_pos(u);
    }
}

/// Digit strings are uniquely canonical: re-rendering the value of a
/// canonical digit string gives the same string back.
pub proof fn lemma_dec_digits_of_val(s: Seq<u8>)
    requires
        canonical_digits(s),
    ensures
        dec_digits(digits_val(s)) == s,
    decreases s.len(),
{
    let n = digits_val(s);
    assert(digits_val(Seq::<u8>::empty()) == 0);
    if s.len() == 1 {
        assert(s.drop_last() =~= Seq::<u8>::empty());
        assert(s.last() == s[0]);
        assert(n == digits_val(s.drop_last()) * 10 + (s.last() - 48) as nat);
        assert(n == (s[0] - 48) as nat);
        assert(n < 10);
        assert(digit_byte(n) == s[0]);
        assert(dec_digits(n) =~= s);
    } else {
        let u = s.drop_last();
        let d = (s.last() - 48) as nat;
        assert(forall|k: int| 0 <= k < u.len() ==> u[k] == #[trigger] s[k]);
        assert(canonical_digits(u));
        lemma_dec_digits_of_val(u);
        lemma_digits_val_pos(u);
        assert(n == digits_val(u) * 10 + d);
        assert(digits_val(u) * 10 >= 10) by (nonlinear_arith)
            requires
                digits_val(u) >= 1,
        ;
        assert(n >= 10);
        assert(n / 10 == digits_val(u) && n % 10 == d) by (nonlinear_arith)
            requires
                n == digits_val(u) * 10 + d,
                0 <= d < 10,
        ;
        assert(is_digit(s.last()));
        assert(digit_byte(d) == s.last());
        assert(dec_digits(n) == u + seq![s.last()]);
        assert(u + seq![s.last()] =~= s);
    }
}

/// Extending a digit string to the right never decreases its value.
pub proof fn lemma_digits_val_prefix(s: Seq<u8>, m: int)
    requires
        all_digits(s),
        0 <= m <= s.len(),
    ensures
        digits_val(s.take(m)) <= digits_val(s),
    decreases s.len(),
{
    if m == s.len() {
        assert(s.take(m) =~= s);
    } else {
        let u = s.drop_last();
        assert(forall|k: int| 0 <= k < u.len() ==> u[k] == #[trigger] s[k]);
        lemma_digits_val_prefix(u, m);
        assert(s.take(m) =~= u.take(m));
        assert(digits_val(u) * 10 >= digits_val(u)) by (nonlinear_arith);
        assert((s.last() - 48) as nat >= 0);
    }
}

/// Characterizes `digit_run_len`: it spans exactly the digits.
pub proof fn lemma_digit_run(s: Seq<u8>, i: int)
    requires
        0 <= i <= s.len(),
    ensures
        0 <= digit_run_len(s, i) <= s.len() - i,
        forall|k: int| i <= k < i + digit_run_len(s, i) ==> is_digit(#[trigger] s[k]),
        i + digit_run_len(s, i) < s.len() ==> !is_digit(s[i + digit_run_len(s, i)]),
        i < s.len() && is_digit(s[i]) ==> digit_run_len(s, i) >= 1,
    decreases s.len() - i,
{
    if i < s.len() && is_digit(s[i]) {
        lemma_digit_run(s, i + 1);
    }
}

/// A block of digits bounded by a non-digit (or the end) is exactly the run.
pub proof fn lemma_digit_run_exact(s: Seq<u8>, i: int, k: int)
    requires
        0 <= i <= k <= s.len(),
        forall|j: int| i <= j < k ==> is_digit(#[trigger] s[j]),
        k == s.len() || !is_digit(s[k]),
    ensures
        digit_run_len(s, i) == k - i,
    decreases k - i,
{
    if i < k {
        lemma_digit_run_exact(s, i + 1, k);
    }
}

// ---------------------------------------------------------------------------
// Lemmas about the key order
// ---------------------------------------------------------------------------
/// `lex_lt` is a strict total order: exactly one of `a < b`, `a == b`,
/// `b < a` holds.
pub proof fn lemma_lex_trichotomy(a: Seq<u8>, b: Seq<u8>)
    ensures
        lex_lt(a, b) || lex_lt(b, a) || a == b,
        !(lex_lt(a, b) && lex_lt(b, a)),
        lex_lt(a, b) ==> a != b,
    decreases a.len(),
{
    if a.len() == 0 || b.len() == 0 {
        if a.len() == 0 && b.len() == 0 {
            assert(a =~= b);
        }
    } else if a[0] == b[0] {
        lemma_lex_trichotomy(a.drop_first(), b.drop_first());
        if a.drop_first() == b.drop_first() {
            assert forall|k: int| 0 <= k < a.len() implies a[k] == b[k] by {
                if k > 0 {
                    assert(a[k] == a.drop_first()[k - 1]);
                    assert(b[k] == b.drop_first()[k - 1]);
                }
            }
            assert(a =~= b);
        }
        if a == b {
            assert(a.drop_first() =~= b.drop_first());
        }
    }
}

/// Splitting a subrange at a midpoint.
pub proof fn lemma_subrange_split(s: Seq<u8>, i: int, m: int, j: int)
    requires
        0 <= i <= m <= j <= s.len(),
    ensures
        s.subrange(i, j) == s.subrange(i, m) + s.subrange(m, j),
{
    assert(s.subrange(i, j) =~= s.subrange(i, m) + s.subrange(m, j));
}

/// Two equal concatenations with equally long heads have equal parts.
pub proof fn lemma_seq_add_split(a: Seq<u8>, b: Seq<u8>, c: Seq<u8>, d: Seq<u8>)
    requires
        a.len() == c.len(),
        a + b == c + d,
    ensures
        a == c,
        b == d,
{
    assert forall|k: int| 0 <= k < a.len() implies a[k] == c[k] by {
        assert((a + b)[k] == a[k]);
        assert((c + d)[k] == c[k]);
    }
    broadcast use vstd::seq::axiom_seq_add_index2;

    assert(a =~= c);
    assert(b.len() == d.len()) by {
        assert((a + b).len() == a.len() + b.len());
        assert((c + d).len() == c.len() + d.len());
    }
    assert forall|k: int| 0 <= k < b.len() implies b[k] == d[k] by {
        assert((a + b)[a.len() + k] == b[k]);
        assert((c + d)[c.len() + k] == d[k]);
    }
    assert(b =~= d);
}

/// Carving the region `[i, i+m)` plus its complement out of a known subrange.
pub proof fn lemma_subrange_head(s: Seq<u8>, i: int, j: int, hd: Seq<u8>, tl: Seq<u8>)
    requires
        0 <= i <= j <= s.len(),
        s.subrange(i, j) == hd + tl,
    ensures
        s.subrange(i, i + hd.len()) == hd,
        s.subrange(i + hd.len(), j) == tl,
{
    assert(s.subrange(i, j).len() == j - i);
    lemma_subrange_split(s, i, i + hd.len() as int, j);
    lemma_seq_add_split(
        s.subrange(i, i + hd.len() as int),
        s.subrange(i + hd.len() as int, j),
        hd,
        tl,
    );
}

// ---------------------------------------------------------------------------
// Soundness: strict decoding accepts exactly canonical bytes
// ---------------------------------------------------------------------------
/// Whatever the strict parser accepts is well-formed and is bytewise equal
/// to the canonical encoding of the decoded value.
pub proof fn lemma_decode_sound(s: Seq<u8>, i: int)
    ensures
        spec_decode(s, i) matches Some((v, j)) ==> i < j <= s.len() && wf(v) && s.subrange(i, j)
            == spec_encode(v),
    decreases s.len() - i, 0int,
{
    if !(0 <= i < s.len()) {
        return ;
    }
    if s[i] == 105 {
        if let Some((v, j)) = spec_decode_int(s, i) {
            let neg = i + 1 < s.len() && s[i + 1] == 45;
            let start: int = if neg {
                i + 2
            } else {
                i + 1
            };
            let run = digit_run_len(s, start);
            lemma_digit_run(s, start);
            let ds = s.subrange(start, start + run);
            assert(all_digits(ds));
            assert(canonical_digits(ds));
            let n = digits_val(ds);
            lemma_dec_digits_of_val(ds);
            let val: int = if neg {
                -(n as int)
            } else {
                n as int
            };
            assert(v == SpecValue::Int(val) && j == start + run + 1);
            if neg {
                assert(ds[0] == s[start]);
                lemma_digits_val_pos(ds);
            }
            let lit = spec_int_lit(val);
            assert(lit == if neg {
                seq![45u8] + ds
            } else {
                ds
            });
            let enc = seq![105u8] + lit + seq![101u8];
            assert(enc.len() == j - i);
            assert forall|k: int| 0 <= k < enc.len() implies enc[k] == s[i + k] by {
                if k == 0 {
                    assert(enc[0] == 105);
                } else if neg && k == 1 {
                    assert(enc[1] == lit[0] == 45);
                } else if k == enc.len() - 1 {
                    assert(enc[k] == 101);
                    assert(s[i + k] == s[start + run]);
                } else {
                    assert(enc[k] == lit[k - 1]);
                    if neg {
                        assert(lit[k - 1] == ds[k - 2]);
                        assert(ds[k - 2] == s[start + (k - 2)]);
                    } else {
                        assert(lit[k - 1] == ds[k - 1]);
                        assert(ds[k - 1] == s[start + (k - 1)]);
                    }
                }
            }
            assert(s.subrange(i, j) =~= enc);
        }
    } else if is_digit(s[i]) {
        if let Some((v, j)) = spec_decode_bytes(s, i) {
            let run = digit_run_len(s, i);
            lemma_digit_run(s, i);
            let ds = s.subrange(i, i + run);
            assert(ds[0] == s[i]);
            assert(canonical_digits(ds));
            let n = digits_val(ds) as int;
            lemma_dec_digits_of_val(ds);
            let b = s.subrange(i + run + 1, i + run + 1 + n);
            assert(v == SpecValue::Bytes(b) && j == i + run + 1 + n);
            assert(b.len() == n);
            let enc = dec_digits(b.len() as nat) + seq![58u8] + b;
            assert(spec_encode(v) == enc);
            assert(dec_digits(b.len() as nat) == ds);
            assert(enc.len() == j - i);
            assert forall|k: int| 0 <= k < enc.len() implies enc[k] == s[i + k] by {
                if k < run {
                    assert(enc[k] == ds[k]);
                    assert(ds[k] == s[i + k]);
                } else if k == run {
                    assert(enc[k] == 58);
                } else {
                    assert(enc[k] == b[k - run - 1]);
                    assert(b[k - run - 1] == s[i + run + 1 + (k - run - 1)]);
                }
            }
            assert(s.subrange(i, j) =~= enc);
        }
    } else if s[i] == 108 {
        if let Some((vs, j)) = spec_decode_items(s, i + 1) {
            lemma_decode_items_sound(s, i + 1);
            assert(s.subrange(i + 1, j) == spec_encode_items(vs) + seq![101u8]);
            lemma_subrange_split(s, i, i + 1, j);
            assert(s.subrange(i, i + 1) =~= seq![108u8]);
            assert(s.subrange(i, j) =~= seq![108u8] + spec_encode_items(vs) + seq![101u8]);
        }
    } else if s[i] == 100 {
        if let Some((ps, j)) = spec_decode_pairs(s, i + 1, Option::None) {
            lemma_decode_pairs_sound(s, i + 1, Option::None);
            assert(s.subrange(i + 1, j) == spec_encode_pairs(ps) + seq![101u8]);
            lemma_subrange_split(s, i, i + 1, j);
            assert(s.subrange(i, i + 1) =~= seq![100u8]);
            assert(s.subrange(i, j) =~= seq![100u8] + spec_encode_pairs(ps) + seq![101u8]);
        }
    }
}

/// Soundness for list items: the bytes consumed are the concatenated
/// canonical encodings followed by the terminator.
pub proof fn lemma_decode_items_sound(s: Seq<u8>, i: int)
    ensures
        spec_decode_items(s, i) matches Some((vs, j)) ==> i < j <= s.len() && (forall|k: int|
            0 <= k < vs.len() ==> wf(#[trigger] vs[k])) && s.subrange(i, j) == spec_encode_items(vs)
            + seq![101u8],
    decreases s.len() - i, 1int,
{
    if !(0 <= i < s.len()) {
        return ;
    }
    if s[i] == 101 {
        assert(spec_encode_items(Seq::<SpecValue>::empty()) == Seq::<u8>::empty());
        assert(s.subrange(i, i + 1) =~= Seq::<u8>::empty() + seq![101u8]);
    } else {
        if let Some((v, j0)) = spec_decode(s, i) {
            lemma_decode_sound(s, i);
            if i < j0 <= s.len() {
                if let Some((vs0, j)) = spec_decode_items(s, j0) {
                    lemma_decode_items_sound(s, j0);
                    let vs = seq![v] + vs0;
                    assert(vs[0] == v);
                    assert(vs.drop_first() =~= vs0);
                    assert(forall|k: int|
                        0 <= k < vs.len() ==> wf(#[trigger] vs[k])) by {
                        assert(forall|k: int| 1 <= k < vs.len() ==> vs[k] == #[trigger] vs0[k - 1]);
                    }
                    lemma_subrange_split(s, i, j0, j);
                    assert(spec_encode_items(vs) == spec_encode(v) + spec_encode_items(vs0));
                    assert(s.subrange(i, j) =~= spec_encode_items(vs) + seq![101u8]);
                }
            }
        }
    }
}

/// Soundness for dictionary pairs: keys are strictly ascending, values
/// well-formed, and the bytes are the canonical pair encodings plus the
/// terminator.
pub proof fn lemma_decode_pairs_sound(s: Seq<u8>, i: int, prev: Option<Seq<u8>>)
    ensures
        spec_decode_pairs(s, i, prev) matches Some((ps, j)) ==> i < j <= s.len() && keys_ascending(
            ps,
        ) && (forall|k: int| 0 <= k < ps.len() ==> wf(#[trigger] ps[k].1)) && (match prev {
            Option::Some(p) => ps.len() > 0 ==> lex_lt(p, ps[0].0),
            Option::None => true,
        }) && s.subrange(i, j) == spec_encode_pairs(ps) + seq![101u8],
    decreases s.len() - i, 1int,
{
    if !(0 <= i < s.len()) {
        return ;
    }
    if s[i] == 101 {
        assert(spec_encode_pairs(Seq::<(Seq<u8>, SpecValue)>::empty()) == Seq::<u8>::empty());
        assert(s.subrange(i, i + 1) =~= Seq::<u8>::empty() + seq![101u8]);
    } else {
        if let Some((kv, j0)) = spec_decode(s, i) {
            if let SpecValue::Bytes(key) = kv {
                lemma_decode_sound(s, i);
                if (match prev {
                    Option::Some(p) => lex_lt(p, key),
                    Option::None => true,
                }) && i < j0 < s.len() {
                    if let Some((v, m)) = spec_decode(s, j0) {
                        lemma_decode_sound(s, j0);
                        if j0 < m <= s.len() {
                            if let Some((ps0, j)) = spec_decode_pairs(s, m, Option::Some(key)) {
                                lemma_decode_pairs_sound(s, m, Option::Some(key));
                                let ps = seq![(key, v)] + ps0;
                                assert(ps[0] == (key, v));
                                assert(ps.drop_first() =~= ps0);
                                assert(forall|k: int|
                                    1 <= k < ps.len() ==> ps[k] == #[trigger] ps0[k - 1]);
                                assert(keys_ascending(ps)) by {
                                    assert forall|k: int|
                                        0 <= k < ps.len() - 1 implies #[trigger] lex_lt(
                                        ps[k].0,
                                        ps[k + 1].0,
                                    ) by {
                                        if k == 0 {
                                            assert(ps[1] == ps0[0]);
                                        } else {
                                            assert(lex_lt(ps0[k - 1].0, ps0[k].0));
                                        }
                                    }
                                }
                                lemma_subrange_split(s, i, j0, m);
                                lemma_subrange_split(s, i, m, j);
                                assert(spec_encode_pairs(ps) == spec_encode_bytestring(key)
                                    + spec_encode(v) + spec_encode_pairs(ps0));
                                assert(s.subrange(i, m) =~= spec_encode_bytestring(key)
                                    + spec_encode(v));
                                assert(s.subrange(i, j) =~= spec_encode_pairs(ps) + seq![101u8]);
                            }
                        }
                    }
                }
            }
        }
    }
}

// ---------------------------------------------------------------------------
// Completeness: canonical bytes decode back to the same value
// ---------------------------------------------------------------------------
/// The first byte of an encoding identifies the variant and is never the
/// terminator.
pub proof fn lemma_encode_first_byte(v: SpecValue)
    ensures
        spec_encode(v).len() >= 2,
        spec_encode(v)[0] != 101,
        v matches SpecValue::Int(_) ==> spec_encode(v)[0] == 105,
        v matches SpecValue::Bytes(_) ==> is_digit(spec_encode(v)[0]),
        v matches SpecValue::List(_) ==> spec_encode(v)[0] == 108,
        v matches SpecValue::Dict(_) ==> spec_encode(v)[0] == 100,
{
    match v {
        SpecValue::Int(i) => {
            let mag: nat = if i < 0 {
                (-i) as nat
            } else {
                i as nat
            };
            lemma_dec_digits_canonical(mag);
        },
        SpecValue::Bytes(b) => {
            lemma_dec_digits_canonical(b.len());
            assert(spec_encode(v)[0] == dec_digits(b.len())[0]);
        },
        SpecValue::List(_) => {},
        SpecValue::Dict(_) => {},
    }
}

/// Completeness for byte strings: a buffer holding the canonical encoding
/// of `b` at `i` decodes to `b` there.
pub proof fn lemma_encode_decode_bytestring(b: Seq<u8>, s: Seq<u8>, i: int)
    requires
        0 <= i,
        i + spec_encode_bytestring(b).len() <= s.len(),
        s.subrange(i, i + spec_encode_bytestring(b).len()) == spec_encode_bytestring(b),
    ensures
        spec_decode(s, i) == Some(
            (SpecValue::Bytes(b), i + spec_encode_bytestring(b).len() as int),
        ),
{
    let dd = dec_digits(b.len());
    lemma_dec_digits_canonical(b.len());
    lemma_digits_val_dec_digits(b.len());
    let enc = spec_encode_bytestring(b);
    let el = enc.len() as int;
    let r = dd.len() as int;
    assert(el == r + 1 + b.len());
    assert(enc =~= dd + (seq![58u8] + b));
    lemma_subrange_head(s, i, i + el, dd, seq![58u8] + b);
    lemma_subrange_head(s, i + r, i + el, seq![58u8], b);
    assert(s[i + r] == 58) by {
        assert(s.subrange(i + r, i + r + 1)[0] == s[i + r]);
    }
    assert forall|j2: int| i <= j2 < i + r implies is_digit(s[j2]) && s[j2] == dd[j2 - i] by {
        assert(s.subrange(i, i + r)[j2 - i] == s[j2]);
    }
    assert(s[i] == dd[0]);
    assert(is_digit(s[i]));
    assert(s[i] != 105);
    lemma_digit_run_exact(s, i, i + r);
    let run = digit_run_len(s, i);
    assert(run == r);
    assert(s.subrange(i, i + run) == dd);
    assert(digits_val(s.subrange(i, i + run)) == b.len());
    assert(run > 1 ==> s[i] != 48) by {
        if run > 1 {
            assert(dd.len() > 1);
            assert(b.len() >= 10);
        }
    }
    assert(s.subrange(i + run + 1, i + run + 1 + b.len() as int) == b);
    assert(spec_decode_bytes(s, i) == Some((SpecValue::Bytes(b), i + el)));
}

/// Completeness: a buffer holding the canonical encoding of a well-formed
/// value at `i` decodes to that value, consuming exactly the encoding.
pub proof fn lemma_encode_decode(v: SpecValue, s: Seq<u8>, i: int)
    requires
        wf(v),
        0 <= i,
        i + spec_encode(v).len() <= s.len(),
        s.subrange(i, i + spec_encode(v).len()) == spec_encode(v),
    ensures
        spec_decode(s, i) == Some((v, i + spec_encode(v).len() as int)),
    decreases v,
{
    let enc = spec_encode(v);
    let el = enc.len() as int;
    lemma_encode_first_byte(v);
    match v {
        SpecValue::Int(val) => {
            let mag: nat = if val < 0 {
                (-val) as nat
            } else {
                val as nat
            };
            let dd = dec_digits(mag);
            lemma_dec_digits_canonical(mag);
            lemma_digits_val_dec_digits(mag);
            let lit = spec_int_lit(val);
            assert(lit == if val < 0 {
                seq![45u8] + dd
            } else {
                dd
            });
            assert(el == 2 + lit.len());
            assert(enc =~= seq![105u8] + (lit + seq![101u8]));
            lemma_subrange_head(s, i, i + el, seq![105u8], lit + seq![101u8]);
            lemma_subrange_head(s, i + 1, i + el, lit, seq![101u8]);
            assert(s[i] == 105) by {
                assert(s.subrange(i, i + 1)[0] == s[i]);
            }
            assert(s[i + el - 1] == 101) by {
                assert(s.subrange(i + 1 + lit.len(), i + el)[0] == s[i + el - 1]);
            }
            let start: int = if val < 0 {
                i + 2
            } else {
                i + 1
            };
            if val < 0 {
                lemma_subrange_head(s, i + 1, i + 1 + lit.len() as int, seq![45u8], dd);
                assert(s[i + 1] == 45) by {
                    assert(s.subrange(i + 1, i + 2)[0] == s[i + 1]);
                }
            }
            assert(s.subrange(start, start + dd.len()) == dd);
            let r = dd.len() as int;
            assert forall|j2: int| start <= j2 < start + r implies is_digit(s[j2]) && s[j2]
                == dd[j2 - start] by {
                assert(s.subrange(start, start + r)[j2 - start] == s[j2]);
            }
            let neg = i + 1 < s.len() && s[i + 1] == 45;
            if val < 0 {
                assert(neg);
            } else {
                assert(s[i + 1] == dd[0]);
                assert(is_digit(dd[0]));
                assert(!neg);
            }
            assert(start + r == i + el - 1);
            assert(s[start + r] == 101);
            lemma_digit_run_exact(s, start, start + r);
            let run = digit_run_len(s, start);
            assert(run == r >= 1);
            if neg {
                assert(mag >= 1);
                assert(s[start] == dd[0]);
                assert(dd[0] != 48);
            }
            if run > 1 {
                assert(dd.len() > 1);
                assert(mag >= 10);
                assert(s[start] == dd[0]);
                assert(dd[0] != 48);
            }
            assert(digits_val(s.subrange(start, start + run)) == mag);
            let got: int = if neg {
                -(mag as int)
            } else {
                mag as int
            };
            assert(got == val);
            assert(spec_decode_int(s, i) == Some((SpecValue::Int(val), i + el)));
        },
        SpecValue::Bytes(b) => {
            assert(enc == spec_encode_bytestring(b));
            lemma_encode_decode_bytestring(b, s, i);
        },
        SpecValue::List(vs) => {
            let inner = spec_encode_items(vs);
            assert(enc == seq![108u8] + inner + seq![101u8]);
            assert(el == inner.len() + 2);
            assert(enc =~= seq![108u8] + (inner + seq![101u8]));
            lemma_subrange_head(s, i, i + el, seq![108u8], inner + seq![101u8]);
            assert(s[i] == 108) by {
                assert(s.subrange(i, i + 1)[0] == s[i]);
            }
            lemma_encode_decode_items(vs, s, i + 1);
            assert(spec_decode_items(s, i + 1) == Some((vs, i + el)));
        },
        SpecValue::Dict(ps) => {
            let inner = spec_encode_pairs(ps);
            assert(enc == seq![100u8] + inner + seq![101u8]);
            assert(el == inner.len() + 2);
            assert(enc =~= seq![100u8] + (inner + seq![101u8]));
            lemma_subrange_head(s, i, i + el, seq![100u8], inner + seq![101u8]);
            assert(s[i] == 100) by {
                assert(s.subrange(i, i + 1)[0] == s[i]);
            }
            lemma_encode_decode_pairs(ps, s, i + 1, Option::None);
            assert(spec_decode_pairs(s, i + 1, Option::None) == Some((ps, i + el)));
        },
    }
}

/// Completeness for list items.
pub proof fn lemma_encode_decode_items(vs: Seq<SpecValue>, s: Seq<u8>, i: int)
    requires
        forall|k: int| 0 <= k < vs.len() ==> wf(#[trigger] vs[k]),
        0 <= i,
        i + spec_encode_items(vs).len() + 1 <= s.len(),
        s.subrange(i, i + spec_encode_items(vs).len() + 1) == spec_encode_items(vs) + seq![101u8],
    ensures
        spec_decode_items(s, i) == Some((vs, i + spec_encode_items(vs).len() + 1)),
    decreases vs,
{
    let inner = spec_encode_items(vs);
    let el = inner.len() as int;
    if vs.len() == 0 {
        assert(inner =~= Seq::<u8>::empty());
        assert(s[i] == 101) by {
            assert(s.subrange(i, i + 1)[0] == s[i]);
            assert((inner + seq![101u8])[0] == 101);
        }
        assert(spec_decode_items(s, i) == Some((Seq::<SpecValue>::empty(), i + 1)));
        assert(vs =~= Seq::<SpecValue>::empty());
    } else {
        let h = vs[0];
        let henc = spec_encode(h);
        let hl = henc.len() as int;
        let rest = vs.drop_first();
        let restenc = spec_encode_items(rest);
        assert(inner == henc + restenc);
        assert(inner + seq![101u8] =~= henc + (restenc + seq![101u8]));
        lemma_subrange_head(s, i, i + el + 1, henc, restenc + seq![101u8]);
        lemma_encode_first_byte(h);
        assert(s[i] == henc[0]) by {
            assert(s.subrange(i, i + hl)[0] == s[i]);
        }
        assert(s[i] != 101);
        assert(wf(h));
        assert(forall|k: int| 0 <= k < rest.len() ==> rest[k] == #[trigger] vs[k + 1]);
        lemma_encode_decode(h, s, i);
        let j0 = i + hl;
        assert(spec_decode(s, i) == Some((h, j0)));
        lemma_encode_decode_items(rest, s, j0);
        assert(spec_decode_items(s, j0) == Some((rest, i + el + 1)));
        assert(seq![h] + rest =~= vs);
    }
}

/// Completeness for dictionary pairs.
pub proof fn lemma_encode_decode_pairs(
    ps: Seq<(Seq<u8>, SpecValue)>,
    s: Seq<u8>,
    i: int,
    prev: Option<Seq<u8>>,
)
    requires
        keys_ascending(ps),
        forall|k: int| 0 <= k < ps.len() ==> wf(#[trigger] ps[k].1),
        match prev {
            Option::Some(p) => ps.len() > 0 ==> lex_lt(p, ps[0].0),
            Option::None => true,
        },
        0 <= i,
        i + spec_encode_pairs(ps).len() + 1 <= s.len(),
        s.subrange(i, i + spec_encode_pairs(ps).len() + 1) == spec_encode_pairs(ps) + seq![101u8],
    ensures
        spec_decode_pairs(s, i, prev) == Some((ps, i + spec_encode_pairs(ps).len() + 1)),
    decreases ps,
{
    let inner = spec_encode_pairs(ps);
    let el = inner.len() as int;
    if ps.len() == 0 {
        assert(inner =~= Seq::<u8>::empty());
        assert(s[i] == 101) by {
            assert(s.subrange(i, i + 1)[0] == s[i]);
            assert((inner + seq![101u8])[0] == 101);
        }
        assert(spec_decode_pairs(s, i, prev) == Some(
            (Seq::<(Seq<u8>, SpecValue)>::empty(), i + 1),
        ));
        assert(ps =~= Seq::<(Seq<u8>, SpecValue)>::empty());
    } else {
        let key = ps[0].0;
        let val = ps[0].1;
        let kenc = spec_encode_bytestring(key);
        let venc = spec_encode(val);
        let kl = kenc.len() as int;
        let vl = venc.len() as int;
        let rest = ps.drop_first();
        let restenc = spec_encode_pairs(rest);
        assert(inner == kenc + venc + restenc);
        assert(inner + seq![101u8] =~= kenc + (venc + (restenc + seq![101u8])));
        lemma_subrange_head(s, i, i + el + 1, kenc, venc + (restenc + seq![101u8]));
        lemma_subrange_head(s, i + kl, i + el + 1, venc, restenc + seq![101u8]);
        lemma_dec_digits_canonical(key.len());
        assert(kenc[0] == dec_digits(key.len())[0]);
        assert(is_digit(kenc[0]));
        assert(s[i] == kenc[0]) by {
            assert(s.subrange(i, i + kl)[0] == s[i]);
        }
        assert(s[i] != 101);
        lemma_encode_decode_bytestring(key, s, i);
        let j0 = i + kl;
        assert(spec_decode(s, i) == Some((SpecValue::Bytes(key), j0)));
        assert(j0 < s.len());
        assert(wf(val)) by {
            assert(wf(ps[0].1));
        }
        lemma_encode_decode(val, s, j0);
        let m = j0 + vl;
        assert(spec_decode(s, j0) == Some((val, m)));
        assert(m < s.len());
        assert(forall|k: int| 1 <= k < ps.len() ==> ps[k] == #[trigger] rest[k - 1]);
        assert(forall|k: int| 0 <= k < rest.len() ==> wf(#[trigger] rest[k].1)) by {
            assert(forall|k: int| 0 <= k < rest.len() ==> rest[k] == #[trigger] ps[k + 1]);
        }
        assert(keys_ascending(rest)) by {
            assert forall|k: int| 0 <= k < rest.len() - 1 implies #[trigger] lex_lt(
                rest[k].0,
                rest[k + 1].0,
            ) by {
                let kk = k + 1;
                assert(0 <= kk < ps.len() - 1);
                assert(lex_lt(ps[kk].0, ps[kk + 1].0));
                assert(ps[kk] == rest[k]);
                assert(ps[kk + 1] == rest[k + 1]);
            }
        }
        assert(rest.len() > 0 ==> lex_lt(key, rest[0].0)) by {
            if rest.len() > 0 {
                assert(lex_lt(ps[0].0, ps[1].0));
            }
        }
        lemma_encode_decode_pairs(rest, s, m, Option::Some(key));
        assert(spec_decode_pairs(s, m, Option::Some(key)) == Some((rest, i + el + 1)));
        assert(seq![(key, val)] + rest =~= ps);
    }
}

// ---------------------------------------------------------------------------
// Round-trip laws
// ---------------------------------------------------------------------------
/// Round trip: any canonically-formed buffer (one that decodes completely)
/// re-encodes to exactly the same bytes.
pub proof fn lemma_round_trip(s: Seq<u8>)
    ensures
        spec_decode_all(s) matches Some(v) ==> wf(v) && spec_encode(v) == s,
{
    if let Some((v, j)) = spec_decode(s, 0) {
        lemma_decode_sound(s, 0);
        if j == s.len() {
            assert(s.subrange(0, j) =~= s);
        }
    }
}

/// Idempotence: the canonical encoding of any well-formed value decodes
/// back to that value, so re-encoding the decoded value changes nothing.
pub proof fn lemma_encode_idempotent(v: SpecValue)
    requires
        wf(v),
    ensures
        spec_decode_all(spec_encode(v)) == Some(v),
{
    let s = spec_encode(v);
    assert(s.subrange(0, s.len() as int) =~= s);
    lemma_encode_decode(v, s, 0);
}

/// `lex_lt` is transitive.
pub proof fn lemma_lex_transitive(a: Seq<u8>, b: Seq<u8>, c: Seq<u8>)
    requires
        lex_lt(a, b),
        lex_lt(b, c),
    ensures
        lex_lt(a, c),
    decreases a.len(),
{
    if a.len() != 0 {
        if a[0] == b[0] && b[0] == c[0] {
            lemma_lex_transitive(a.drop_first(), b.drop_first(), c.drop_first());
        }
    }
}

// ---------------------------------------------------------------------------
// Executable helpers
// ---------------------------------------------------------------------------
/// Equal prefixes reduce a lexicographic comparison to the suffixes.
proof fn lemma_lex_skip(a: Seq<u8>, b: Seq<u8>, k: int)
    requires
        0 <= k <= a.len(),
        k <= b.len(),
        forall|t: int| 0 <= t < k ==> a[t] == b[t],
    ensures
        lex_lt(a, b) == lex_lt(a.skip(k), b.skip(k)),
    decreases k,
{
    if k > 0 {
        assert(a[0] == b[0]);
        let a1 = a.drop_first();
        let b1 = b.drop_first();
        assert(forall|t: int| 0 <= t < k - 1 ==> a1[t] == #[trigger] b1[t]) by {
            assert(forall|t: int| 0 <= t < k - 1 ==> a1[t] == #[trigger] a[t + 1]);
            assert(forall|t: int| 0 <= t < k - 1 ==> b1[t] == #[trigger] b[t + 1]);
        }
        lemma_lex_skip(a1, b1, k - 1);
        assert(a1.skip(k - 1) =~= a.skip(k));
        assert(b1.skip(k - 1) =~= b.skip(k));
    } else {
        assert(a.skip(0) =~= a);
        assert(b.skip(0) =~= b);
    }
}

/// Byte-lexicographic strict comparison of two byte strings.
pub fn bytes_lt(a: &Vec<u8>, b: &Vec<u8>) -> (r: bool)
    ensures
        r == lex_lt(a@, b@),
{
    let mut k: usize = 0;
    while k < a.len() && k < b.len()
        invariant
            0 <= k <= a@.len(),
            k <= b@.len(),
            forall|t: int| 0 <= t < k ==> a@[t] == b@[t],
        decreases a@.len() - k,
    {
        proof {
            lemma_lex_skip(a@, b@, k as int);
        }
        if a[k] < b[k] {
            proof {
                assert(a@.skip(k as int)[0] == a@[k as int]);
                assert(b@.skip(k as int)[0] == b@[k as int]);
            }
            return true;
        }
        if a[k] > b[k] {
            proof {
                assert(a@.skip(k as int)[0] == a@[k as int]);
                assert(b@.skip(k as int)[0] == b@[k as int]);
            }
            return false;
        }
        k = k + 1;
    }
    proof {
        lemma_lex_skip(a@, b@, k as int);
    }
    a.len() < b.len()
}

/// Bytewise equality of two byte strings.
pub fn bytes_eq(a: &Vec<u8>, b: &Vec<u8>) -> (r: bool)
    ensures
        r == (a@ == b@),
{
    if a.len() != b.len() {
        return false;
    }
    let mut k: usize = 0;
    while k < a.len()
        invariant
            0 <= k <= a@.len(),
            a@.len() == b@.len(),
            forall|t: int| 0 <= t < k ==> a@[t] == b@[t],
        decreases a@.len() - k,
    {
        if a[k] != b[k] {
            return false;
        }
        k = k + 1;
    }
    proof {
        assert(a@ =~= b@);
    }
    true
}

/// Index just past the run of ASCII digits starting at `i`.
fn scan_digits(bytes: &[u8], i: usize) -> (r: usize)
    requires
        i <= bytes@.len(),
    ensures
        i <= r <= bytes@.len(),
        r - i == digit_run_len(bytes@, i as int),
        forall|k: int| i <= k < r ==> is_digit(#[trigger] bytes@[k]),
{
    let mut j = i;
    while j < bytes.len() && 48 <= bytes[j] && bytes[j] <= 57
        invariant
            i <= j <= bytes@.len(),
            forall|k: int| i <= k < j ==> is_digit(#[trigger] bytes@[k]),
        decreases bytes@.len() - j,
    {
        j = j + 1;
    }
    proof {
        lemma_digit_run_exact(bytes@, i as int, j as int);
    }
    j
}

/// Evaluates the digit run `bytes[i..j]`; `None` when the value exceeds
/// `u64::MAX`.
fn digits_to_u64(bytes: &[u8], i: usize, j: usize) -> (r: Option<u64>)
    requires
        i <= j <= bytes@.len(),
        forall|k: int| i <= k < j ==> is_digit(#[trigger] bytes@[k]),
    ensures
        r matches Some(v) ==> v as nat == digits_val(bytes@.subrange(i as int, j as int)),
        r is None ==> digits_val(bytes@.subrange(i as int, j as int)) > u64::MAX,
{
    let ghost s = bytes@;
    let ghost whole = s.subrange(i as int, j as int);
    let mut acc: u64 = 0;
    let mut t = i;
    proof {
        assert(s.subrange(i as int, i as int) =~= Seq::<u8>::empty());
    }
    while t < j
        invariant
            i <= t <= j <= s.len(),
            s == bytes@,
            forall|k: int| i <= k < j ==> is_digit(#[trigger] s[k]),
            acc as nat == digits_val(s.subrange(i as int, t as int)),
            whole == s.subrange(i as int, j as int),
        decreases j - t,
    {
        let ghost pre = s.subrange(i as int, t as int);
        let ghost ext = s.subrange(i as int, t as int + 1);
        proof {
            assert(ext.drop_last() =~= pre);
            assert(ext.last() == s[t as int]);
            assert(digits_val(ext) == digits_val(pre) * 10 + (s[t as int] - 48) as nat);
        }
        let d = bytes[t] - 48;
        proof {
            assert forall|k: int| 0 <= k < whole.len() implies is_digit(#[trigger] whole[k]) by {
                assert(whole[k] == s[i + k]);
            }
            assert(whole.take(t + 1 - i as int) =~= ext);
        }
        match acc.checked_mul(10) {
            None => {
                proof {
                    assert(digits_val(ext) > u64::MAX);
                    lemma_digits_val_prefix(whole, t + 1 - i as int);
                }
                return None;
            },
            Some(m10) => {
                match m10.checked_add(d as u64) {
                    None => {
                        proof {
                            assert(digits_val(ext) > u64::MAX);
                            lemma_digits_val_prefix(whole, t + 1 - i as int);
                        }
                        return None;
                    },
                    Some(nacc) => {
                        acc = nacc;
                        t = t + 1;
                    },
                }
            },
        }
    }
    proof {
        assert(s.subrange(i as int, t as int) =~= whole);
    }
    Some(acc)
}

// ---------------------------------------------------------------------------
// The executable decoder
// ---------------------------------------------------------------------------
/// Why a buffer failed to decode.
#[derive(Debug, Clone, Copy, PartialEq, Eq)]
pub enum DecodeError {
    /// End of buffer where a value or a terminator was expected.
    UnexpectedEnd,
    /// The leading byte does not start any value.
    UnexpectedByte,
    /// Malformed integer: missing digits or terminator, a leading zero,
    /// `-0`, or a value outside the signed 64-bit range.
    BadInteger,
    /// Malformed byte-string length prefix.
    BadLength,
    /// The declared byte-string length exceeds the remaining buffer.
    LengthOverrun,
    /// A dictionary key is not a byte string.
    NonByteStringKey,
    /// Dictionary keys are not strictly ascending.
    UnsortedKeys,
    /// `decode_all`: the buffer continues past the decoded value.
    TrailingBytes,
}

/// The key that dictionary parsing must exceed after the given pairs.
pub open spec fn prev_key_of(s: Seq<(Vec<u8>, Value)>) -> Option<Seq<u8>> {
    if s.len() == 0 {
        None
    } else {
        Some(s.last().0@)
    }
}

pub open spec fn opt_prepend_items(pre: Seq<SpecValue>, o: Option<(Seq<SpecValue>, int)>) -> Option<
    (Seq<SpecValue>, int),
> {
    match o {
        Option::None => None,
        Option::Some((vs, k)) => Some((pre + vs, k)),
    }
}

pub open spec fn opt_prepend_pairs(
    pre: Seq<(Seq<u8>, SpecValue)>,
    o: Option<(Seq<(Seq<u8>, SpecValue)>, int)>,
) -> Option<(Seq<(Seq<u8>, SpecValue)>, int)> {
    match o {
        Option::None => None,
        Option::Some((ps, k)) => Some((pre + ps, k)),
    }
}

proof fn lemma_prepend_assoc_items(
    p1: Seq<SpecValue>,
    p2: Seq<SpecValue>,
    o: Option<(Seq<SpecValue>, int)>,
)
    ensures
        opt_prepend_items(p1, opt_prepend_items(p2, o)) == opt_prepend_items(p1 + p2, o),
{
    match o {
        Option::None => {},
        Option::Some((vs, k)) => {
            assert(p1 + (p2 + vs) =~= (p1 + p2) + vs);
        },
    }
}

proof fn lemma_prepend_assoc_pairs(
    p1: Seq<(Seq<u8>, SpecValue)>,
    p2: Seq<(Seq<u8>, SpecValue)>,
    o: Option<(Seq<(Seq<u8>, SpecValue)>, int)>,
)
    ensures
        opt_prepend_pairs(p1, opt_prepend_pairs(p2, o)) == opt_prepend_pairs(p1 + p2, o),
{
    match o {
        Option::None => {},
        Option::Some((ps, k)) => {
            assert(p1 + (p2 + ps) =~= (p1 + p2) + ps);
        },
    }
}

/// Appending a value extends the sequence of views.
pub proof fn lemma_views_of_push(s: Seq<Value>, v: Value)
    ensures
        views_of(s.push(v)) == views_of(s) + seq![v@],
    decreases s.len(),
{
    let p = s.push(v);
    if s.len() == 0 {
        assert(p.len() == 1);
        assert(p[0] == v);
        assert(p.drop_first() =~= Seq::<Value>::empty());
        assert(views_of(Seq::<Value>::empty()) == Seq::<SpecValue>::empty());
        assert(views_of(p) == seq![value_view(v)] + Seq::<SpecValue>::empty());
        assert(views_of(p) =~= views_of(s) + seq![v@]);
    } else {
        assert(p[0] == s[0]);
        assert(p.drop_first() =~= s.drop_first().push(v));
        lemma_views_of_push(s.drop_first(), v);
        assert(views_of(p) == seq![value_view(s[0])] + (views_of(s.drop_first()) + seq![v@]));
        assert(seq![value_view(s[0])] + (views_of(s.drop_first()) + seq![v@]) =~= (seq![value_view(
            s[0],
        )] + views_of(s.drop_first())) + seq![v@]);
    }
}

/// Appending a pair extends the sequence of pair views.
pub proof fn lemma_pair_views_push(s: Seq<(Vec<u8>, Value)>, key: Vec<u8>, v: Value)
    ensures
        pair_views(s.push((key, v))) == pair_views(s) + seq![(key@, v@)],
    decreases s.len(),
{
    let p = s.push((key, v));
    if s.len() == 0 {
        assert(p.len() == 1);
        assert(p[0] == (key, v));
        assert(p.drop_first() =~= Seq::<(Vec<u8>, Value)>::empty());
        assert(pair_views(Seq::<(Vec<u8>, Value)>::empty()) == Seq::<(Seq<u8>, SpecValue)>::empty());
        assert(pair_views(p) == seq![(key@, value_view(v))] + Seq::<(Seq<u8>, SpecValue)>::empty());
        assert(pair_views(p) =~= pair_views(s) + seq![(key@, v@)]);
    } else {
        assert(p[0] == s[0]);
        assert(p.drop_first() =~= s.drop_first().push((key, v)));
        lemma_pair_views_push(s.drop_first(), key, v);
        assert(pair_views(p) == seq![(s[0].0@, value_view(s[0].1))] + (pair_views(s.drop_first())
            + seq![(key@, v@)]));
        assert(seq![(s[0].0@, value_view(s[0].1))] + (pair_views(s.drop_first()) + seq![
            (key@, v@),
        ]) =~= (seq![(s[0].0@, value_view(s[0].1))] + pair_views(s.drop_first())) + seq![
            (key@, v@),
        ]);
    }
}

/// Decodes one value starting at byte offset `i`, returning the value and
/// the offset just past it. Succeeds exactly when the strict grammar
/// (`spec_decode`) accepts the bytes, and returns exactly the value and
/// offset that the grammar assigns.
pub fn decode(bytes: &[u8], i: usize) -> (r: Result<(Value, usize), DecodeError>)
    ensures
        r matches Ok((v, j)) ==> i < j <= bytes@.len() && spec_decode(bytes@, i as int) == Some(
            (v@, j as int),
        ),
        r is Err ==> spec_decode(bytes@, i as int) is None,
        i >= bytes@.len() ==> r == Err::<(Value, usize), DecodeError>(DecodeError::UnexpectedEnd),
        i < bytes@.len() && bytes@[i as int] != 105 && bytes@[i as int] != 108 && bytes@[
            i as int
        ] != 100 && !is_digit(bytes@[i as int]) ==> r == Err::<(Value, usize), DecodeError>(
            DecodeError::UnexpectedByte,
        ),
    decreases bytes@.len() - i,
{
    let ghost s = bytes@;
    if i >= bytes.len() {
        return Err(DecodeError::UnexpectedEnd);
    }
    let b0 = bytes[i];
    if b0 == 105 {
        // integer: i<digits>e
        let neg = i + 1 < bytes.len() && bytes[i + 1] == 45;
        let start = if neg {
            i + 2
        } else {
            i + 1
        };
        let end = scan_digits(bytes, start);
        proof {
            lemma_digit_run(s, start as int);
        }
        if end == start {
            return Err(DecodeError::BadInteger);
        }
        if bytes[start] == 48 && (neg || end - start > 1) {
            return Err(DecodeError::BadInteger);
        }
        if end >= bytes.len() || bytes[end] != 101 {
            return Err(DecodeError::BadInteger);
        }
        let ghost ds = s.subrange(start as int, end as int);
        match digits_to_u64(bytes, start, end) {
            None => {
                proof {
                    assert(digits_val(ds) > u64::MAX);
                }
                return Err(DecodeError::BadInteger);
            },
            Some(n) => {
                if !neg {
                    if n > 0x7fff_ffff_ffff_ffffu64 {
                        return Err(DecodeError::BadInteger);
                    }
                    let v = n as i64;
                    proof {
                        assert(spec_decode_int(s, i as int) == Some(
                            (SpecValue::Int(n as int), end as int + 1),
                        ));
                    }
                    return Ok((Value::Int(v), end + 1));
                } else {
                    if n > 0x8000_0000_0000_0000u64 {
                        return Err(DecodeError::BadInteger);
                    }
                    let v: i64 = if n == 0x8000_0000_0000_0000u64 {
                        i64::MIN
                    } else {
                        -(n as i64)
                    };
                    proof {
                        assert(v as int == -(n as int));
                        assert(spec_decode_int(s, i as int) == Some(
                            (SpecValue::Int(-(n as int)), end as int + 1),
                        ));
                    }
                    return Ok((Value::Int(v), end + 1));
                }
            },
        }
    } else if 48 <= b0 && b0 <= 57 {
        // byte string: <length>:<raw bytes>
        let end = scan_digits(bytes, i);
        proof {
            lemma_digit_run(s, i as int);
        }
        if bytes[i] == 48 && end - i > 1 {
            return Err(DecodeError::BadLength);
        }
        if end >= bytes.len() || bytes[end] != 58 {
            return Err(DecodeError::BadLength);
        }
        let rem = bytes.len() - (end + 1);
        let ghost ds = s.subrange(i as int, end as int);
        match digits_to_u64(bytes, i, end) {
            None => {
                proof {
                    assert(digits_val(ds) > u64::MAX);
                }
                return Err(DecodeError::LengthOverrun);
            },
            Some(n) => {
                if n > rem as u64 {
                    return Err(DecodeError::LengthOverrun);
                }
                let n_us = n as usize;
                let content = vstd::slice::slice_to_vec(&bytes[end + 1..end + 1 + n_us]);
                proof {
                    assert(content@ == s.subrange(end as int + 1, end as int + 1 + n as int));
                }
                return Ok((Value::Bytes(content), end + 1 + n_us));
            },
        }
    } else if b0 == 108 {
        // list: l<values>e
        let mut items: Vec<Value> = Vec::new();
        let mut cur = i + 1;
        proof {
            assert(views_of(items@) =~= Seq::<SpecValue>::empty());
            assert(opt_prepend_items(views_of(items@), spec_decode_items(s, cur as int))
                == spec_decode_items(s, cur as int)) by {
                if let Some((vs, k)) = spec_decode_items(s, cur as int) {
                    assert(views_of(items@) + vs =~= vs);
                }
            }
        }
        while cur < bytes.len()
            invariant
                s == bytes@,
                i < s.len(),
                s[i as int] == 108,
                i + 1 <= cur <= s.len(),
                spec_decode_items(s, i as int + 1) == opt_prepend_items(
                    views_of(items@),
                    spec_decode_items(s, cur as int),
                ),
            decreases s.len() - cur,
        {
            if bytes[cur] == 101 {
                proof {
                    assert(spec_decode_items(s, cur as int) == Some(
                        (Seq::<SpecValue>::empty(), cur as int + 1),
                    ));
                    assert(views_of(items@) + Seq::<SpecValue>::empty() =~= views_of(items@));
                }
                return Ok((Value::List(items), cur + 1));
            }
            match decode(bytes, cur) {
                Err(e) => {
                    proof {
                        assert(spec_decode_items(s, cur as int) is None);
                    }
                    return Err(e);
                },
                Ok((v, j)) => {
                    proof {
                        assert(spec_decode_items(s, cur as int) == opt_prepend_items(
                            seq![v@],
                            spec_decode_items(s, j as int),
                        ));
                        lemma_prepend_assoc_items(
                            views_of(items@),
                            seq![v@],
                            spec_decode_items(s, j as int),
                        );
                        lemma_views_of_push(items@, v);
                    }
                    items.push(v);
                    cur = j;
                },
            }
        }
        proof {
            assert(spec_decode_items(s, cur as int) is None);
        }
        return Err(DecodeError::UnexpectedEnd);
    } else if b0 == 100 {
        // dictionary: d<key value pairs>e
        let mut pairs: Vec<(Vec<u8>, Value)> = Vec::new();
        let mut cur = i + 1;
        proof {
            assert(pair_views(pairs@) =~= Seq::<(Seq<u8>, SpecValue)>::empty());
            assert(opt_prepend_pairs(
                pair_views(pairs@),
                spec_decode_pairs(s, cur as int, prev_key_of(pairs@)),
            ) == spec_decode_pairs(s, cur as int, prev_key_of(pairs@))) by {
                if let Some((ps, k)) = spec_decode_pairs(s, cur as int, prev_key_of(pairs@)) {
                    assert(pair_views(pairs@) + ps =~= ps);
                }
            }
        }
        while cur < bytes.len()
            invariant
                s == bytes@,
                i < s.len(),
                s[i as int] == 100,
                i + 1 <= cur <= s.len(),
                spec_decode_pairs(s, i as int + 1, Option::None) == opt_prepend_pairs(
                    pair_views(pairs@),
                    spec_decode_pairs(s, cur as int, prev_key_of(pairs@)),
                ),
            decreases s.len() - cur,
        {
            if bytes[cur] == 101 {
                proof {
                    assert(spec_decode_pairs(s, cur as int, prev_key_of(pairs@)) == Some(
                        (Seq::<(Seq<u8>, SpecValue)>::empty(), cur as int + 1),
                    ));
                    assert(pair_views(pairs@) + Seq::<(Seq<u8>, SpecValue)>::empty() =~= pair_views(
                        pairs@,
                    ));

                }
                return Ok((Value::Dict(pairs), cur + 1));
            }
            match decode(bytes, cur) {
                Err(e) => {
                    proof {
                        assert(spec_decode_pairs(s, cur as int, prev_key_of(pairs@)) is None);
                    }
                    return Err(e);
                },
                Ok((kv, j)) => {
                    match kv {
                        Value::Bytes(key) => {
                            if pairs.len() > 0 {
                                let plen = pairs.len();
                                let ordered = bytes_lt(&pairs[plen - 1].0, &key);
                                if !ordered {
                                    proof {
                                        assert(pairs@.last() == pairs@[plen - 1]);
                                        assert(spec_decode_pairs(
                                            s,
                                            cur as int,
                                            prev_key_of(pairs@),
                                        ) is None);
                                    }
                                    return Err(DecodeError::UnsortedKeys);
                                }
                            }
                            match decode(bytes, j) {
                                Err(e) => {
                                    proof {
                                        if pairs@.len() > 0 {
                                            assert(pairs@.last() == pairs@[pairs@.len() - 1]);
                                        }
                                        assert(spec_decode_pairs(
                                            s,
                                            cur as int,
                                            prev_key_of(pairs@),
                                        ) is None);
                                    }
                                    return Err(e);
                                },
                                Ok((val, m)) => {
                                    proof {
                                        if pairs@.len() > 0 {
                                            assert(pairs@.last() == pairs@[pairs@.len() - 1]);
                                        }
                                        assert(spec_decode_pairs(s, cur as int, prev_key_of(pairs@))
                                            == opt_prepend_pairs(
                                            seq![(key@, val@)],
                                            spec_decode_pairs(s, m as int, Option::Some(key@)),
                                        ));
                                        lemma_prepend_assoc_pairs(
                                            pair_views(pairs@),
                                            seq![(key@, val@)],
                                            spec_decode_pairs(s, m as int, Option::Some(key@)),
                                        );
                                        lemma_pair_views_push(pairs@, key, val);
                                        assert(prev_key_of(pairs@.push((key, val))) == Option::Some(
                                            key@,
                                        ));
                                    }
                                    pairs.push((key, val));
                                    cur = m;
                                },
                            }
                        },
                        _ => {
                            proof {
                                assert(!(kv@ matches SpecValue::Bytes(_)));
                                assert(spec_decode_pairs(s, cur as int, prev_key_of(pairs@))
                                    is None);
                            }
                            return Err(DecodeError::NonByteStringKey);
                        },
                    }
                },
            }
        }
        proof {
            assert(spec_decode_pairs(s, cur as int, prev_key_of(pairs@)) is None);
        }
        return Err(DecodeError::UnexpectedEnd);
    } else {
        return Err(DecodeError::UnexpectedByte);
    }
}

/// Decodes a complete buffer: exactly one value, no trailing bytes.
pub fn decode_all(bytes: &[u8]) -> (r: Result<Value, DecodeError>)
    ensures
        r matches Ok(v) ==> spec_decode_all(bytes@) == Some(v@),
        r is Err ==> spec_decode_all(bytes@) is None,
{
    match decode(bytes, 0) {
        Err(e) => Err(e),
        Ok((v, j)) => {
            if j != bytes.len() {
                Err(DecodeError::TrailingBytes)
            } else {
                Ok(v)
            }
        },
    }
}

// ---------------------------------------------------------------------------
// The executable encoder
// ---------------------------------------------------------------------------
/// Indexing facts for `views_of`.
pub proof fn lemma_views_of_props(s: Seq<Value>)
    ensures
        views_of(s).len() == s.len(),
        forall|k: int| 0 <= k < s.len() ==> views_of(s)[k] == value_view(#[trigger] s[k]),
    decreases s.len(),
{
    if s.len() > 0 {
        lemma_views_of_props(s.drop_first());
        assert(forall|k: int|
            1 <= k < s.len() ==> s.drop_first()[k - 1] == #[trigger] s[k]);
        assert forall|k: int| 0 <= k < s.len() implies views_of(s)[k] == value_view(
            #[trigger] s[k],
        ) by {
            if k > 0 {
                assert(views_of(s)[k] == views_of(s.drop_first())[k - 1]);
            }
        }
    }
}

/// Indexing facts for `pair_views`.
pub proof fn lemma_pair_views_props(s: Seq<(Vec<u8>, Value)>)
    ensures
        pair_views(s).len() == s.len(),
        forall|k: int|
            0 <= k < s.len() ==> pair_views(s)[k] == ((#[trigger] s[k]).0@, value_view(s[k].1)),
    decreases s.len(),
{
    if s.len() > 0 {
        lemma_pair_views_props(s.drop_first());
        assert(forall|k: int|
            1 <= k < s.len() ==> s.drop_first()[k - 1] == #[trigger] s[k]);
        assert forall|k: int| 0 <= k < s.len() implies pair_views(s)[k] == ((#[trigger] s[k]).0@,
            value_view(s[k].1)) by {
            if k > 0 {
                assert(pair_views(s)[k] == pair_views(s.drop_first())[k - 1]);
            }
        }
    }
}

/// Appending a value to a list appends its encoding.
pub proof fn lemma_encode_items_push(l: Seq<SpecValue>, v: SpecValue)
    ensures
        spec_encode_items(l.push(v)) == spec_encode_items(l) + spec_encode(v),
    decreases l.len(),
{
    let p = l.push(v);
    if l.len() == 0 {
        assert(p[0] == v);
        assert(p.drop_first() =~= Seq::<SpecValue>::empty());
        assert(spec_encode_items(Seq::<SpecValue>::empty()) == Seq::<u8>::empty());
        assert(spec_encode_items(p) == spec_encode(v) + Seq::<u8>::empty());
        assert(spec_encode_items(p) =~= spec_encode_items(l) + spec_encode(v));
    } else {
        assert(p[0] == l[0]);
        assert(p.drop_first() =~= l.drop_first().push(v));
        lemma_encode_items_push(l.drop_first(), v);
        assert(spec_encode_items(p) == spec_encode(l[0]) + (spec_encode_items(l.drop_first())
            + spec_encode(v)));
        assert(spec_encode(l[0]) + (spec_encode_items(l.drop_first()) + spec_encode(v)) =~= (
        spec_encode(l[0]) + spec_encode_items(l.drop_first())) + spec_encode(v));
    }
}

/// Appending a pair to a dictionary appends the key and value encodings.
pub proof fn lemma_encode_pairs_push(l: Seq<(Seq<u8>, SpecValue)>, key: Seq<u8>, v: SpecValue)
    ensures
        spec_encode_pairs(l.push((key, v))) == spec_encode_pairs(l) + spec_encode_bytestring(key)
            + spec_encode(v),
    decreases l.len(),
{
    let p = l.push((key, v));
    if l.len() == 0 {
        assert(p[0] == (key, v));
        assert(p.drop_first() =~= Seq::<(Seq<u8>, SpecValue)>::empty());
        assert(spec_encode_pairs(Seq::<(Seq<u8>, SpecValue)>::empty()) == Seq::<u8>::empty());
        assert(spec_encode_pairs(p) == spec_encode_bytestring(key) + spec_encode(v)
            + Seq::<u8>::empty());
        assert(spec_encode_pairs(p) =~= spec_encode_pairs(l) + spec_encode_bytestring(key)
            + spec_encode(v));
    } else {
        assert(p[0] == l[0]);
        assert(p.drop_first() =~= l.drop_first().push((key, v)));
        lemma_encode_pairs_push(l.drop_first(), key, v);
        assert(spec_encode_pairs(p) == spec_encode_bytestring(l[0].0) + spec_encode(l[0].1) + (
        spec_encode_pairs(l.drop_first()) + spec_encode_bytestring(key) + spec_encode(v)));
        assert(spec_encode_bytestring(l[0].0) + spec_encode(l[0].1) + (spec_encode_pairs(
            l.drop_first(),
        ) + spec_encode_bytestring(key) + spec_encode(v)) =~= (spec_encode_bytestring(l[0].0)
            + spec_encode(l[0].1) + spec_encode_pairs(l.drop_first())) + spec_encode_bytestring(key)
            + spec_encode(v));
    }
}

/// Renders a number as canonical decimal digits.
pub(crate) fn u64_to_dec(n: u64) -> (r: Vec<u8>)
    ensures
        r@ == dec_digits(n as nat),
{
    let mut out: Vec<u8> = Vec::new();
    let mut cur = n;
    while cur >= 10
        invariant
            dec_digits(n as nat) == dec_digits(cur as nat) + out@,
        decreases cur,
    {
        let d = 48 + (cur % 10) as u8;
        proof {
            assert(digit_byte((cur % 10) as nat) == d);
            assert(out@.insert(0, d) =~= seq![d] + out@);
            assert(dec_digits((cur / 10) as nat) + (seq![d] + out@) =~= (dec_digits(
                (cur / 10) as nat,
            ) + seq![d]) + out@);
        }
        out.insert(0, d);
        cur = cur / 10;
    }
    let d = 48 + (cur % 10) as u8;
    proof {
        assert(digit_byte(cur as nat) == d);
        assert(dec_digits(cur as nat) == seq![d]);
        assert(out@.insert(0, d) =~= seq![d] + out@);
    }
    out.insert(0, d);
    out
}

/// Appends the encoding of one byte string to `out`.
fn encode_bytestring_into(b: &Vec<u8>, out: &mut Vec<u8>)
    ensures
        final(out)@ == old(out)@ + spec_encode_bytestring(b@),
{
    let mut digits = u64_to_dec(b.len() as u64);
    let ghost mid = out@;
    out.append(&mut digits);
    out.push(58);
    out.extend_from_slice(b.as_slice());
    proof {
        assert(out@ =~= mid + (dec_digits(b@.len() as nat) + seq![58u8] + b@));
    }
}

/// Appends the canonical encoding of `v` to `out`.
pub fn encode_into(v: &Value, out: &mut Vec<u8>)
    ensures
        final(out)@ == old(out)@ + spec_encode(v@),
    decreases v@,
{
    let ghost base = out@;
    match v {
        Value::Int(x) => {
            out.push(105);
            if *x < 0 {
                out.push(45);
                let mag: u64 = if *x == i64::MIN {
                    0x8000_0000_0000_0000u64
                } else {
                    (-(*x)) as u64
                };
                proof {
                    assert(mag as nat == (-(*x as int)) as nat);
                }
                let mut digits = u64_to_dec(mag);
                out.append(&mut digits);
                out.push(101);
                proof {
                    assert(spec_int_lit(*x as int) == seq![45u8] + dec_digits(mag as nat));
                    assert(out@ =~= base + (seq![105u8] + spec_int_lit(*x as int) + seq![101u8]));
                }
            } else {
                let mut digits = u64_to_dec(*x as u64);
                out.append(&mut digits);
                out.push(101);
                proof {
                    assert(spec_int_lit(*x as int) == dec_digits(*x as nat));
                    assert(out@ =~= base + (seq![105u8] + spec_int_lit(*x as int) + seq![101u8]));
                }
            }
        },
        Value::Bytes(b) => {
            encode_bytestring_into(b, out);
        },
        Value::List(vs) => {
            out.push(108);
            proof {
                lemma_views_of_props(vs@);
            }
            let ghost lv = views_of(vs@);
            let mut idx: usize = 0;
            proof {
                assert(lv.take(0) =~= Seq::<SpecValue>::empty());
                assert(spec_encode_items(Seq::<SpecValue>::empty()) == Seq::<u8>::empty());
                assert(out@ =~= base + seq![108u8] + spec_encode_items(lv.take(0)));
            }
            while idx < vs.len()
                invariant
                    v@ == SpecValue::List(lv),
                    0 <= idx <= vs@.len(),
                    lv == views_of(vs@),
                    lv.len() == vs@.len(),
                    forall|k: int| 0 <= k < vs@.len() ==> lv[k] == value_view(#[trigger] vs@[k]),
                    out@ == base + seq![108u8] + spec_encode_items(lv.take(idx as int)),
                decreases vs@.len() - idx,
            {
                proof {
                    assert(v@->List_0 == lv);
                    assert(decreases_to!(v@ => v@->List_0));
                    assert(decreases_to!(lv => lv[idx as int]));
                    assert(lv[idx as int] == vs@[idx as int]@);
                }
                encode_into(&vs[idx], out);
                proof {
                    assert(lv.take(idx + 1) =~= lv.take(idx as int).push(lv[idx as int]));
                    lemma_encode_items_push(lv.take(idx as int), lv[idx as int]);
                    assert(out@ =~= base + seq![108u8] + spec_encode_items(lv.take(idx + 1)));
                }
                idx = idx + 1;
            }
            out.push(101);
            proof {
                assert(lv.take(vs@.len() as int) =~= lv);
                assert(value_view(*v) == SpecValue::List(lv));
                assert(out@ =~= base + (seq![108u8] + spec_encode_items(lv) + seq![101u8]));
            }
        },
        Value::Dict(ps) => {
            out.push(100);
            proof {
                lemma_pair_views_props(ps@);
            }
            let ghost pv = pair_views(ps@);
            let mut idx: usize = 0;
            proof {
                assert(pv.take(0) =~= Seq::<(Seq<u8>, SpecValue)>::empty());
                assert(spec_encode_pairs(Seq::<(Seq<u8>, SpecValue)>::empty())
                    == Seq::<u8>::empty());
                assert(out@ =~= base + seq![100u8] + spec_encode_pairs(pv.take(0)));
            }
            while idx < ps.len()
                invariant
                    v@ == SpecValue::Dict(pv),
                    0 <= idx <= ps@.len(),
                    pv == pair_views(ps@),
                    pv.len() == ps@.len(),
                    forall|k: int|
                        0 <= k < ps@.len() ==> pv[k] == ((#[trigger] ps@[k]).0@, value_view(
                            ps@[k].1,
                        )),
                    out@ == base + seq![100u8] + spec_encode_pairs(pv.take(idx as int)),
                decreases ps@.len() - idx,
            {
                encode_bytestring_into(&ps[idx].0, out);
                proof {
                    assert(v@->Dict_0 == pv);
                    assert(decreases_to!(v@ => v@->Dict_0));
                    assert(decreases_to!(pv => pv[idx as int]));
                    assert(decreases_to!(pv[idx as int] => pv[idx as int].1));
                    assert(pv[idx as int].1 == ps@[idx as int].1@);
                }
                encode_into(&ps[idx].1, out);
                proof {
                    assert(pv.take(idx + 1) =~= pv.take(idx as int).push(pv[idx as int]));
                    lemma_encode_pairs_push(
                        pv.take(idx as int),
                        ps@[idx as int].0@,
                        value_view(ps@[idx as int].1),
                    );
                    assert(out@ =~= base + seq![100u8] + spec_encode_pairs(pv.take(idx + 1)));
                }
                idx = idx + 1;
            }
            out.push(101);
            proof {
                assert(pv.take(ps@.len() as int) =~= pv);
                assert(value_view(*v) == SpecValue::Dict(pv));
                assert(out@ =~= base + (seq![100u8] + spec_encode_pairs(pv) + seq![101u8]));
            }
        },
    }
}

/// The canonical encoding of a value: integers without leading zeros, byte
/// strings with exact length prefixes, dictionaries in stored key order.
pub fn encode(v: &Value) -> (r: Vec<u8>)
    ensures
        r@ == spec_encode(v@),
{
    let mut out: Vec<u8> = Vec::new();
    encode_into(v, &mut out);
    proof {
        assert(Seq::<u8>::empty() + spec_encode(v@) =~= spec_encode(v@));
    }
    out
}

// ---------------------------------------------------------------------------
// Building canonical dictionaries
// ---------------------------------------------------------------------------
/// Insertion into a key-sorted pair list: before the first key that is
/// not smaller, replacing an equal key.
pub open spec fn spec_dict_insert(
    ps: Seq<(Seq<u8>, SpecValue)>,
    key: Seq<u8>,
    v: SpecValue,
) -> Seq<(Seq<u8>, SpecValue)>
    decreases ps.len(),
{
    if ps.len() == 0 {
        seq![(key, v)]
    } else if lex_lt(key, ps[0].0) {
        seq![(key, v)] + ps
    } else if key == ps[0].0 {
        seq![(key, v)] + ps.drop_first()
    } else {
        seq![ps[0]] + spec_dict_insert(ps.drop_first(), key, v)
    }
}

/// Where the scan stops determines the result of `spec_dict_insert`.
proof fn lemma_dict_insert_at(ps: Seq<(Seq<u8>, SpecValue)>, key: Seq<u8>, v: SpecValue, idx: int)
    requires
        0 <= idx <= ps.len(),
        forall|t: int| 0 <= t < idx ==> lex_lt((#[trigger] ps[t]).0, key),
        idx < ps.len() ==> !lex_lt(ps[idx].0, key),
    ensures
        spec_dict_insert(ps, key, v) == if idx < ps.len() && ps[idx].0 == key {
            ps.take(idx) + seq![(key, v)] + ps.skip(idx + 1)
        } else {
            ps.take(idx) + seq![(key, v)] + ps.skip(idx)
        },
    decreases ps.len(),
{
    if idx == 0 {
        if ps.len() == 0 {
            assert(spec_dict_insert(ps, key, v) =~= ps.take(0) + seq![(key, v)] + ps.skip(0));
        } else {
            lemma_lex_trichotomy(key, ps[0].0);
            if ps[0].0 == key {
                assert(ps.drop_first() =~= ps.skip(1));
                assert(spec_dict_insert(ps, key, v) =~= ps.take(0) + seq![(key, v)] + ps.skip(1));
            } else {
                assert(lex_lt(key, ps[0].0));
                assert(spec_dict_insert(ps, key, v) =~= ps.take(0) + seq![(key, v)] + ps.skip(0));
            }
        }
    } else {
        assert(lex_lt(ps[0].0, key));
        lemma_lex_trichotomy(key, ps[0].0);
        assert(!lex_lt(key, ps[0].0));
        assert(key != ps[0].0);
        let rest = ps.drop_first();
        assert(forall|t: int| 0 <= t < idx - 1 ==> (#[trigger] rest[t]) == ps[t + 1]);
        lemma_dict_insert_at(rest, key, v, idx - 1);
        if idx < ps.len() && ps[idx].0 == key {
            assert(rest[idx - 1].0 == key);
            assert(rest.take(idx - 1) + seq![(key, v)] + rest.skip(idx) =~= (ps.take(idx) + seq![
                (key, v),
            ] + ps.skip(idx + 1)).drop_first());
            assert(seq![ps[0]] + (rest.take(idx - 1) + seq![(key, v)] + rest.skip(idx)) =~= ps.take(
                idx,
            ) + seq![(key, v)] + ps.skip(idx + 1));
        } else {
            assert(idx - 1 < rest.len() ==> rest[idx - 1] == ps[idx]);
            assert(seq![ps[0]] + (rest.take(idx - 1) + seq![(key, v)] + rest.skip(idx - 1))
                =~= ps.take(idx) + seq![(key, v)] + ps.skip(idx));
        }
    }
}

/// Inserts a key/value pair into a key-sorted dictionary, keeping the
/// keys strictly ascending: the pair lands before the first key that is
/// not smaller, and replaces an equal key.
pub fn dict_insert(pairs: &mut Vec<(Vec<u8>, Value)>, key: Vec<u8>, val: Value)
    ensures
        pair_views(final(pairs)@) == spec_dict_insert(pair_views(old(pairs)@), key@, val@),
{
    proof {
        lemma_pair_views_props(pairs@);
    }
    let ghost pv = pair_views(pairs@);
    let mut idx: usize = 0;
    while idx < pairs.len() && bytes_lt(&pairs[idx].0, &key)
        invariant
            0 <= idx <= pairs@.len(),
            pv == pair_views(pairs@),
            pv.len() == pairs@.len(),
            forall|k: int|
                0 <= k < pairs@.len() ==> pv[k] == ((#[trigger] pairs@[k]).0@, value_view(
                    pairs@[k].1,
                )),
            forall|t: int| 0 <= t < idx ==> lex_lt((#[trigger] pv[t]).0, key@),
        decreases pairs@.len() - idx,
    {
        idx = idx + 1;
    }
    proof {
        lemma_dict_insert_at(pv, key@, val@, idx as int);
    }
    if idx < pairs.len() && bytes_eq(&pairs[idx].0, &key) {
        pairs.set(idx, (key, val));
        proof {
            lemma_pair_views_props(pairs@);
            let target = pv.take(idx as int) + seq![(key@, val@)] + pv.skip(idx as int + 1);
            assert(pair_views(pairs@).len() == target.len());
            assert forall|k: int| 0 <= k < target.len() implies pair_views(pairs@)[k]
                == target[k] by {
                broadcast use vstd::seq::axiom_seq_add_index2;

                assert(pair_views(pairs@)[k] == (pairs@[k].0@, value_view(pairs@[k].1)));
                if k < idx {
                    assert(target[k] == pv.take(idx as int)[k]);
                    assert(pairs@[k] == old(pairs)@[k]);
                } else if k == idx {
                    assert(target[k] == (key@, val@));
                } else {
                    assert(target[k] == pv.skip(idx as int + 1)[k - idx - 1]);
                    assert(pairs@[k] == old(pairs)@[k]);
                }
            }
            assert(pair_views(pairs@) =~= target);
        }
    } else {
        pairs.insert(idx, (key, val));
        proof {
            lemma_pair_views_props(pairs@);
            let target = pv.take(idx as int) + seq![(key@, val@)] + pv.skip(idx as int);
            assert(pair_views(pairs@).len() == target.len());
            assert forall|k: int| 0 <= k < target.len() implies pair_views(pairs@)[k]
                == target[k] by {
                broadcast use vstd::seq::axiom_seq_add_index2;

                assert(pair_views(pairs@)[k] == (pairs@[k].0@, value_view(pairs@[k].1)));
                assert(pairs@ == old(pairs)@.subrange(0, idx as int).push((key, val)) + old(
                    pairs,
                )@.subrange(idx as int, old(pairs)@.len() as int));
                if k < idx {
                    assert(target[k] == pv.take(idx as int)[k]);
                    assert(pairs@[k] == old(pairs)@.subrange(0, idx as int).push((key, val))[k]);
                    assert(pairs@[k] == old(pairs)@[k]);
                } else if k == idx {
                    assert(target[k] == (key@, val@));
                    assert(pairs@[k] == old(pairs)@.subrange(0, idx as int).push((key, val))[k]);
                    assert(pairs@[k] == (key, val));
                } else {
                    assert(target[k] == pv.skip(idx as int)[k - idx - 1]);
                    assert(pairs@[k] == old(pairs)@.subrange(
                        idx as int,
                        old(pairs)@.len() as int,
                    )[k - idx - 1]);
                    assert(pairs@[k] == old(pairs)@[k - 1]);
                }
            }
            assert(pair_views(pairs@) =~= target);
        }
    }
}

/// Inserting into a dictionary with strictly ascending keys keeps the
/// keys strictly ascending, whatever order pairs arrive in; the
/// canonical encoding of such a dictionary therefore always lists its
/// keys in ascending byte-lexicographic order.
pub proof fn lemma_dict_insert_preserves_order(
    ps: Seq<(Seq<u8>, SpecValue)>,
    key: Seq<u8>,
    v: SpecValue,
)
    requires
        keys_ascending(ps),
    ensures
        keys_ascending(spec_dict_insert(ps, key, v)),
    decreases ps.len(),
{
    broadcast use vstd::seq::axiom_seq_add_index2;

    let out = spec_dict_insert(ps, key, v);
    if ps.len() == 0 {
        assert(keys_ascending(out));
    } else if lex_lt(key, ps[0].0) {
        assert(out == seq![(key, v)] + ps);
        assert forall|k: int| 0 <= k < out.len() - 1 implies #[trigger] lex_lt(
            out[k].0,
            out[k + 1].0,
        ) by {
            if k == 0 {
                assert(out[0].0 == key && out[1] == ps[0]);
            } else {
                assert(out[k] == ps[k - 1] && out[k + 1] == ps[k]);
                let kk = k - 1;
                assert(0 <= kk < ps.len() - 1);
                assert(lex_lt(ps[kk].0, ps[kk + 1].0));
            }
        }
    } else if key == ps[0].0 {
        assert(out == seq![(key, v)] + ps.drop_first());
        assert forall|k: int| 0 <= k < out.len() - 1 implies #[trigger] lex_lt(
            out[k].0,
            out[k + 1].0,
        ) by {
            if k == 0 {
                assert(out[1] == ps[1]);
                assert(lex_lt(ps[0].0, ps[1].0));
            } else {
                assert(out[k] == ps[k] && out[k + 1] == ps[k + 1]);
                let kk = k;
                assert(lex_lt(ps[kk].0, ps[kk + 1].0));
            }
        }
    } else {
        lemma_lex_trichotomy(key, ps[0].0);
        assert(lex_lt(ps[0].0, key));
        let rest = ps.drop_first();
        assert(forall|t: int| 0 <= t < rest.len() ==> (#[trigger] rest[t]) == ps[t + 1]);
        assert(keys_ascending(rest)) by {
            assert forall|k: int| 0 <= k < rest.len() - 1 implies #[trigger] lex_lt(
                rest[k].0,
                rest[k + 1].0,
            ) by {
                let kk = k + 1;
                assert(0 <= kk < ps.len() - 1);
                assert(lex_lt(ps[kk].0, ps[kk + 1].0));
            }
        }
        lemma_dict_insert_preserves_order(rest, key, v);
        let sub = spec_dict_insert(rest, key, v);
        assert(out == seq![ps[0]] + sub);
        // the head key stays below whatever now leads the tail
        assert(sub.len() > 0 && lex_lt(ps[0].0, sub[0].0)) by {
            if rest.len() == 0 {
                assert(sub == seq![(key, v)]);
            } else if lex_lt(key, rest[0].0) {
                assert(sub == seq![(key, v)] + rest);
                assert(sub[0].0 == key);
            } else if key == rest[0].0 {
                assert(sub == seq![(key, v)] + rest.drop_first());
                assert(sub[0].0 == key);
                assert(lex_lt(ps[0].0, key));
            } else {
                assert(sub == seq![rest[0]] + spec_dict_insert(rest.drop_first(), key, v));
                assert(sub[0] == rest[0]);
                assert(lex_lt(ps[0].0, ps[1].0));
            }
        }
        assert forall|k: int| 0 <= k < out.len() - 1 implies #[trigger] lex_lt(
            out[k].0,
            out[k + 1].0,
        ) by {
            if k == 0 {
                assert(out[0] == ps[0] && out[1] == sub[0]);
            } else {
                assert(out[k] == sub[k - 1] && out[k + 1] == sub[k]);
                let kk = k - 1;
                assert(lex_lt(sub[kk].0, sub[kk + 1].0));
            }
        }
    }
}

/// A byte string whose declared length exceeds the remaining buffer is
/// rejected outright; there is no truncated success.
pub proof fn lemma_length_overrun_rejected(s: Seq<u8>, i: int)
    requires
        0 <= i < s.len(),
        is_digit(s[i]),
        i + digit_run_len(s, i) < s.len(),
        s[i + digit_run_len(s, i)] == 58,
        i + digit_run_len(s, i) + 1 + digits_val(s.subrange(i, i + digit_run_len(s, i))) > s.len(),
    ensures
        spec_decode(s, i) is None,
{
    assert(s[i] != 105);
}

/// Head and tail of a cons-style pair sequence.
proof fn lemma_pair_cons(x: (Seq<u8>, SpecValue), s: Seq<(Seq<u8>, SpecValue)>)
    ensures
        (seq![x] + s).len() == s.len() + 1,
        (seq![x] + s)[0] == x,
        (seq![x] + s).drop_first() == s,
{
    assert((seq![x] + s).drop_first() =~= s);
}

/// Insertions of distinct keys commute: a dictionary built by
/// `dict_insert` does not depend on the order the pairs arrived in.
pub proof fn lemma_dict_insert_commutes(
    ps: Seq<(Seq<u8>, SpecValue)>,
    k1: Seq<u8>,
    v1: SpecValue,
    k2: Seq<u8>,
    v2: SpecValue,
)
    requires
        keys_ascending(ps),
        k1 != k2,
    ensures
        spec_dict_insert(spec_dict_insert(ps, k1, v1), k2, v2) == spec_dict_insert(
            spec_dict_insert(ps, k2, v2),
            k1,
            v1,
        ),
    decreases ps.len(),
{
    lemma_lex_trichotomy(k1, k2);
    if ps.len() == 0 {
        assert(spec_dict_insert(ps, k1, v1) == seq![(k1, v1)]);
        assert(spec_dict_insert(ps, k2, v2) == seq![(k2, v2)]);
        assert(seq![(k1, v1)].drop_first() =~= Seq::<(Seq<u8>, SpecValue)>::empty());
        assert(seq![(k2, v2)].drop_first() =~= Seq::<(Seq<u8>, SpecValue)>::empty());
        assert(spec_dict_insert(Seq::<(Seq<u8>, SpecValue)>::empty(), k1, v1) == seq![(k1, v1)]);
        assert(spec_dict_insert(Seq::<(Seq<u8>, SpecValue)>::empty(), k2, v2) == seq![(k2, v2)]);
        if lex_lt(k1, k2) {
            assert(spec_dict_insert(spec_dict_insert(ps, k1, v1), k2, v2) =~= seq![(k1, v1)]
                + seq![(k2, v2)]);
            assert(spec_dict_insert(spec_dict_insert(ps, k2, v2), k1, v1) =~= seq![(k1, v1)]
                + seq![(k2, v2)]);
        } else {
            assert(spec_dict_insert(spec_dict_insert(ps, k1, v1), k2, v2) =~= seq![(k2, v2)]
                + seq![(k1, v1)]);
            assert(spec_dict_insert(spec_dict_insert(ps, k2, v2), k1, v1) =~= seq![(k2, v2)]
                + seq![(k1, v1)]);
        }
    } else {
        let h = ps[0].0;
        let rest = ps.drop_first();
        lemma_lex_trichotomy(k1, h);
        lemma_lex_trichotomy(k2, h);
        let a1 = spec_dict_insert(ps, k1, v1);
        let a2 = spec_dict_insert(ps, k2, v2);
        if lex_lt(h, k1) && lex_lt(h, k2) {
            // both keys land in the tail
            assert(a1 == seq![ps[0]] + spec_dict_insert(rest, k1, v1));
            assert(a2 == seq![ps[0]] + spec_dict_insert(rest, k2, v2));
            lemma_pair_cons(ps[0], spec_dict_insert(rest, k1, v1));
            lemma_pair_cons(ps[0], spec_dict_insert(rest, k2, v2));
            assert(forall|t: int| 0 <= t < rest.len() ==> (#[trigger] rest[t]) == ps[t + 1]);
            assert(keys_ascending(rest)) by {
                assert forall|k: int| 0 <= k < rest.len() - 1 implies #[trigger] lex_lt(
                    rest[k].0,
                    rest[k + 1].0,
                ) by {
                    let kk = k + 1;
                    assert(0 <= kk < ps.len() - 1);
                    assert(lex_lt(ps[kk].0, ps[kk + 1].0));
                }
            }
            lemma_dict_insert_commutes(rest, k1, v1, k2, v2);
            assert(spec_dict_insert(a1, k2, v2) == seq![ps[0]] + spec_dict_insert(
                spec_dict_insert(rest, k1, v1),
                k2,
                v2,
            ));
            assert(spec_dict_insert(a2, k1, v1) == seq![ps[0]] + spec_dict_insert(
                spec_dict_insert(rest, k2, v2),
                k1,
                v1,
            ));
        } else if !lex_lt(h, k1) && !lex_lt(h, k2) {
            // both keys land at or before the head; order them directly
            if lex_lt(k1, k2) {
                // k1 < k2 <= h, and k2 == h replaces the head
                let tail2 = if k2 == h {
                    rest
                } else {
                    ps
                };
                assert(a2 == seq![(k2, v2)] + tail2);
                lemma_pair_cons((k2, v2), tail2);
                assert(spec_dict_insert(a2, k1, v1) == seq![(k1, v1)] + (seq![(k2, v2)] + tail2));
                assert(a1 == seq![(k1, v1)] + ps);
                lemma_pair_cons((k1, v1), ps);
                if k2 != h {
                    lemma_lex_transitive(k1, k2, h);
                }
                assert(lex_lt(k1, h));
                assert(spec_dict_insert(a1, k2, v2) == seq![(k1, v1)] + spec_dict_insert(
                    ps,
                    k2,
                    v2,
                ));
            } else {
                // the mirror image
                let tail1 = if k1 == h {
                    rest
                } else {
                    ps
                };
                assert(a1 == seq![(k1, v1)] + tail1);
                lemma_pair_cons((k1, v1), tail1);
                assert(spec_dict_insert(a1, k2, v2) == seq![(k2, v2)] + (seq![(k1, v1)] + tail1));
                assert(a2 == seq![(k2, v2)] + ps);
                lemma_pair_cons((k2, v2), ps);
                if k1 != h {
                    lemma_lex_transitive(k2, k1, h);
                }
                assert(lex_lt(k2, h));
                assert(spec_dict_insert(a2, k1, v1) == seq![(k2, v2)] + spec_dict_insert(
                    ps,
                    k1,
                    v1,
                ));
            }
        } else if !lex_lt(h, k1) && lex_lt(h, k2) {
            // k1 lands at or before the head, k2 in the tail
            let tail1 = if k1 == h {
                rest
            } else {
                ps
            };
            assert(a1 == seq![(k1, v1)] + tail1);
            lemma_pair_cons((k1, v1), tail1);
            assert(a2 == seq![ps[0]] + spec_dict_insert(rest, k2, v2));
            lemma_pair_cons(ps[0], spec_dict_insert(rest, k2, v2));
            if k1 == h {
                assert(lex_lt(k1, k2));
                assert(spec_dict_insert(a1, k2, v2) == seq![(k1, v1)] + spec_dict_insert(
                    rest,
                    k2,
                    v2,
                ));
                assert(spec_dict_insert(a2, k1, v1) == seq![(k1, v1)] + spec_dict_insert(
                    rest,
                    k2,
                    v2,
                ));
            } else {
                assert(lex_lt(k1, h));
                lemma_lex_transitive(k1, h, k2);
                assert(spec_dict_insert(a1, k2, v2) == seq![(k1, v1)] + spec_dict_insert(
                    ps,
                    k2,
                    v2,
                ));
                assert(spec_dict_insert(a2, k1, v1) == seq![(k1, v1)] + (seq![ps[0]]
                    + spec_dict_insert(rest, k2, v2)));
            }
        } else {
            // the mirror image: k2 at or before the head, k1 in the tail
            let tail2 = if k2 == h {
                rest
            } else {
                ps
            };
            assert(a2 == seq![(k2, v2)] + tail2);
            lemma_pair_cons((k2, v2), tail2);
            assert(a1 == seq![ps[0]] + spec_dict_insert(rest, k1, v1));
            lemma_pair_cons(ps[0], spec_dict_insert(rest, k1, v1));
            if k2 == h {
                assert(lex_lt(k2, k1));
                assert(spec_dict_insert(a2, k1, v1) == seq![(k2, v2)] + spec_dict_insert(
                    rest,
                    k1,
                    v1,
                ));
                assert(spec_dict_insert(a1, k2, v2) == seq![(k2, v2)] + spec_dict_insert(
                    rest,
                    k1,
                    v1,
                ));
            } else {
                assert(lex_lt(k2, h));
                lemma_lex_transitive(k2, h, k1);
                assert(spec_dict_insert(a2, k1, v1) == seq![(k2, v2)] + spec_dict_insert(
                    ps,
                    k1,
                    v1,
                ));
                assert(spec_dict_insert(a1, k2, v2) == seq![(k2, v2)] + (seq![ps[0]]
                    + spec_dict_insert(rest, k1, v1)));
            }
        }
    }
}

} // verus!
