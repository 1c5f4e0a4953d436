//! The persisted model format and its round-trip law.
//!
//! A model is written as eight text lines, two per tensor in the fixed
//! order weight matrix 1, weight matrix 2, bias vector 1, bias vector 2:
//! first the tensor's shape as a bracketed, comma-separated list of
//! decimal dimension sizes, then its flattened row-major values as a
//! bracketed, comma-separated list of number tokens, each line closed by
//! a line feed.  Every line is a well-formed JSON array.  The value
//! tokens follow the JSON number grammar and pass through this module as
//! uninterpreted text, so what was written is read back letter for
//! letter: parsing is exact, and a parse succeeds precisely on the
//! renderings of well-formed records.

use vstd::prelude::*;

use crate::params::ModelError;

verus! {

/// `[`
pub const LBRACKET: u8 = 91;

/// `]`
pub const RBRACKET: u8 = 93;

/// `,`
pub const COMMA: u8 = 44;

/// Line feed.
pub const LINE_FEED: u8 = 10;

/// `-`
pub const MINUS: u8 = 45;

/// `+`
pub const PLUS: u8 = 43;

/// `.`
pub const DOT: u8 = 46;

/// `e`
pub const LOWER_E: u8 = 101;

/// `E`
pub const UPPER_E: u8 = 69;

/// A decimal digit byte.
pub open spec fn is_digit(b: u8) -> bool {
    48 <= b && b <= 57
}

/// A byte that may stand in a number token.
pub open spec fn is_num_byte(b: u8) -> bool {
    is_digit(b) || b == MINUS || b == PLUS || b == DOT || b == LOWER_E || b == UPPER_E
}

/// Index of the first non-digit byte at or after `i`, or the length.
pub open spec fn first_non_digit(s: Seq<u8>, i: int) -> int
    decreases s.len() - i
        when 0 <= i <= s.len()
{
    if i >= s.len() {
        s.len() as int
    } else if !is_digit(s[i]) {
        i
    } else {
        first_non_digit(s, i + 1)
    }
}

/// The digit run found from `i` ends within bounds, holds digits only,
/// and stops at a non-digit.
proof fn lemma_fnd_bounds(s: Seq<u8>, i: int)
    requires
        0 <= i <= s.len(),
    ensures
        i <= first_non_digit(s, i) <= s.len(),
        forall|k: int| i <= k < first_non_digit(s, i) ==> is_digit(#[trigger] s[k]),
        first_non_digit(s, i) < s.len() ==> !is_digit(s[first_non_digit(s, i)]),
    decreases s.len() - i,
{
    if i < s.len() && is_digit(s[i]) {
        lemma_fnd_bounds(s, i + 1);
    }
}

/// A digit run with a non-digit boundary pins the scan's answer.
proof fn lemma_fnd_from(s: Seq<u8>, i: int, m: int)
    requires
        0 <= i <= m <= s.len(),
        forall|k: int| i <= k < m ==> is_digit(#[trigger] s[k]),
        m == s.len() || !is_digit(s[m]),
    ensures
        first_non_digit(s, i) == m,
    decreases m - i,
{
    if i < m {
        lemma_fnd_from(s, i + 1, m);
    }
}

/// Index of the first byte at or after `i` that cannot stand in a number
/// token, or the length.
pub open spec fn first_non_num(s: Seq<u8>, i: int) -> int
    decreases s.len() - i
        when 0 <= i <= s.len()
{
    if i >= s.len() {
        s.len() as int
    } else if !is_num_byte(s[i]) {
        i
    } else {
        first_non_num(s, i + 1)
    }
}

/// As for digits: bounds, content and boundary of the number-byte run.
proof fn lemma_fnn_bounds(s: Seq<u8>, i: int)
    requires
        0 <= i <= s.len(),
    ensures
        i <= first_non_num(s, i) <= s.len(),
        forall|k: int| i <= k < first_non_num(s, i) ==> is_num_byte(#[trigger] s[k]),
        first_non_num(s, i) < s.len() ==> !is_num_byte(s[first_non_num(s, i)]),
    decreases s.len() - i,
{
    if i < s.len() && is_num_byte(s[i]) {
        lemma_fnn_bounds(s, i + 1);
    }
}

/// A number-byte run with a boundary pins the scan's answer.
proof fn lemma_fnn_from(s: Seq<u8>, i: int, m: int)
    requires
        0 <= i <= m <= s.len(),
        forall|k: int| i <= k < m ==> is_num_byte(#[trigger] s[k]),
        m == s.len() || !is_num_byte(s[m]),
    ensures
        first_non_num(s, i) == m,
    decreases m - i,
{
    if i < m {
        lemma_fnn_from(s, i + 1, m);
    }
}

/// End of the optional leading minus sign.
pub open spec fn num_sign_end(t: Seq<u8>) -> int {
    if t.len() > 0 && t[0] == MINUS {
        1
    } else {
        0
    }
}

/// End of the integer part's digits.
pub open spec fn num_int_end(t: Seq<u8>) -> int {
    first_non_digit(t, num_sign_end(t))
}

/// The integer part holds at least one digit and no leading zero.
pub open spec fn num_int_ok(t: Seq<u8>) -> bool {
    num_int_end(t) > num_sign_end(t) && (t[num_sign_end(t)] != 48 || num_int_end(t)
        == num_sign_end(t) + 1)
}

/// Whether a fraction part follows the integer part.
pub open spec fn num_has_frac(t: Seq<u8>) -> bool {
    num_int_end(t) < t.len() && t[num_int_end(t)] == DOT
}

/// End of the fraction part, or of the integer part when none follows.
pub open spec fn num_frac_end(t: Seq<u8>) -> int {
    if num_has_frac(t) {
        first_non_digit(t, num_int_end(t) + 1)
    } else {
        num_int_end(t)
    }
}

/// A fraction part, if present, holds at least one digit.
pub open spec fn num_frac_ok(t: Seq<u8>) -> bool {
    num_has_frac(t) ==> num_frac_end(t) > num_int_end(t) + 1
}

/// Whether an exponent part follows.
pub open spec fn num_has_exp(t: Seq<u8>) -> bool {
    num_frac_end(t) < t.len() && (t[num_frac_end(t)] == LOWER_E || t[num_frac_end(t)] == UPPER_E)
}

/// Start of the exponent's digits, past its marker and optional sign.
pub open spec fn num_exp_digit_start(t: Seq<u8>) -> int {
    if num_has_exp(t) {
        if num_frac_end(t) + 1 < t.len() && (t[num_frac_end(t) + 1] == PLUS || t[num_frac_end(t)
            + 1] == MINUS) {
            num_frac_end(t) + 2
        } else {
            num_frac_end(t) + 1
        }
    } else {
        num_frac_end(t)
    }
}

/// End of the token's last part.
pub open spec fn num_end(t: Seq<u8>) -> int {
    first_non_digit(t, num_exp_digit_start(t))
}

/// An exponent part, if present, holds at least one digit.
pub open spec fn num_exp_ok(t: Seq<u8>) -> bool {
    num_has_exp(t) ==> num_end(t) > num_exp_digit_start(t)
}

/// The JSON number grammar: optional minus, an integer part without a
/// leading zero, an optional fraction and an optional exponent, together
/// covering the whole token.
pub open spec fn is_number_token(t: Seq<u8>) -> bool {
    num_int_ok(t) && num_frac_ok(t) && num_exp_ok(t) && num_end(t) == t.len()
}

/// A number token is nonempty and made of number bytes only.
proof fn lemma_number_token_bytes(t: Seq<u8>)
    requires
        is_number_token(t),
    ensures
        t.len() > 0,
        forall|k: int| 0 <= k < t.len() ==> is_num_byte(#[trigger] t[k]),
{
    let se = num_sign_end(t);
    let ie = num_int_end(t);
    let fe = num_frac_end(t);
    let es = num_exp_digit_start(t);
    lemma_fnd_bounds(t, se);
    if num_has_frac(t) {
        lemma_fnd_bounds(t, ie + 1);
    }
    lemma_fnd_bounds(t, es);
    assert forall|k: int| 0 <= k < t.len() implies is_num_byte(#[trigger] t[k]) by {
        if k < se {
            assert(t[0] == MINUS);
        } else if k < ie {
        } else if k == ie && ie < fe {
            assert(t[ie] == DOT);
        } else if k < fe {
        } else if k == fe && fe < t.len() && k < es {
            assert(t[fe] == LOWER_E || t[fe] == UPPER_E);
        } else if k < es {
            assert(k == fe + 1);
            assert(t[k] == PLUS || t[k] == MINUS);
        } else {
            assert(k < num_end(t));
        }
    }
}

/// Finds the end of the digit run starting at `i`.
fn scan_digits(s: &Vec<u8>, i: usize) -> (j: usize)
    requires
        i <= s@.len(),
    ensures
        j as int == first_non_digit(s@, i as int),
        i <= j <= s@.len(),
{
    let n = s.len();
    let mut j = i;
    while j < n && 48 <= s[j] && s[j] <= 57
        invariant
            i <= j <= n,
            n == s@.len(),
            first_non_digit(s@, i as int) == first_non_digit(s@, j as int),
        decreases n - j,
    {
        j += 1;
    }
    proof {
        lemma_fnd_bounds(s@, i as int);
    }
    j
}

/// Decides whether a token follows the JSON number grammar.
pub fn check_number_token(t: &Vec<u8>) -> (r: bool)
    ensures
        r == is_number_token(t@),
{
    let n = t.len();
    let se: usize = if n > 0 && t[0] == MINUS {
        1
    } else {
        0
    };
    let ie = scan_digits(t, se);
    if ie == se {
        return false;
    }
    if t[se] == 48 && ie != se + 1 {
        return false;
    }
    let fe = if ie < n && t[ie] == DOT {
        let f = scan_digits(t, ie + 1);
        if f == ie + 1 {
            return false;
        }
        f
    } else {
        ie
    };
    let es = if fe < n && (t[fe] == LOWER_E || t[fe] == UPPER_E) {
        let s2 = if fe + 1 < n && (t[fe + 1] == PLUS || t[fe + 1] == MINUS) {
            fe + 2
        } else {
            fe + 1
        };
        s2
    } else {
        fe
    };
    let ne = scan_digits(t, es);
    if fe < n && (t[fe] == LOWER_E || t[fe] == UPPER_E) && ne == es {
        return false;
    }
    ne == n
}

/// One persisted tensor: its dimension sizes and its flattened values,
/// each value an uninterpreted number token.
#[derive(Clone, Debug, PartialEq, Eq)]
pub struct TensorRecord {
    pub shape: Vec<usize>,
    pub values: Vec<Vec<u8>>,
}

/// The four persisted tensors, in the order they are written.
#[derive(Clone, Debug, PartialEq, Eq)]
pub struct ModelRecords {
    pub weights1: TensorRecord,
    pub weights2: TensorRecord,
    pub biases1: TensorRecord,
    pub biases2: TensorRecord,
}

/// The mathematical content of a tensor record.
pub struct TensorView {
    pub shape: Seq<usize>,
    pub values: Seq<Seq<u8>>,
}

/// The mathematical content of a model record.
pub struct RecordsView {
    pub weights1: TensorView,
    pub weights2: TensorView,
    pub biases1: TensorView,
    pub biases2: TensorView,
}

impl View for TensorRecord {
    type V = TensorView;

    open spec fn view(&self) -> TensorView {
        TensorView { shape: self.shape@, values: self.values.deep_view() }
    }
}

impl View for ModelRecords {
    type V = RecordsView;

    open spec fn view(&self) -> RecordsView {
        RecordsView {
            weights1: self.weights1@,
            weights2: self.weights2@,
            biases1: self.biases1@,
            biases2: self.biases2@,
        }
    }
}

/// The canonical decimal digits of `n`: no sign, no leading zero.
pub open spec fn dec_digits(n: nat) -> Seq<u8>
    decreases n,
{
    if n < 10 {
        seq![(48 + n) as u8]
    } else {
        dec_digits(n / 10).push((48 + n % 10) as u8)
    }
}

/// The items laid side by side with a comma between neighbours.
pub open spec fn join_comma(items: Seq<Seq<u8>>) -> Seq<u8>
    decreases items.len(),
{
    if items.len() == 0 {
        Seq::empty()
    } else if items.len() == 1 {
        items[0]
    } else {
        items[0] + seq![COMMA] + join_comma(items.drop_first())
    }
}

/// A bracketed, comma-separated list.
pub open spec fn render_list(items: Seq<Seq<u8>>) -> Seq<u8> {
    seq![LBRACKET] + join_comma(items) + seq![RBRACKET]
}

/// Each dimension size as its decimal digits.
pub open spec fn shape_tokens(shape: Seq<usize>) -> Seq<Seq<u8>> {
    shape.map_values(|d: usize| dec_digits(d as nat))
}

/// A tensor's two lines: its shape list and its value list.
pub open spec fn render_tensor(t: TensorView) -> Seq<u8> {
    render_list(shape_tokens(t.shape)) + seq![LINE_FEED] + render_list(t.values) + seq![
        LINE_FEED,
    ]
}

/// The whole persisted text of a model.
pub open spec fn spec_render_records(m: RecordsView) -> Seq<u8> {
    render_tensor(m.weights1) + render_tensor(m.weights2) + render_tensor(m.biases1)
        + render_tensor(m.biases2)
}

/// The number a digit run denotes.
pub open spec fn digits_val(s: Seq<u8>) -> nat
    decreases s.len(),
{
    if s.len() == 0 {
        0
    } else {
        digits_val(s.drop_last()) * 10 + (s.last() - 48) as nat
    }
}

/// The canonical digits of `n` are digits, and start with a zero only
/// for zero itself.
proof fn lemma_dec_digits_props(n: nat)
    ensures
        dec_digits(n).len() > 0,
        forall|k: int| 0 <= k < dec_digits(n).len() ==> is_digit(#[trigger] dec_digits(n)[k]),
        dec_digits(n)[0] == 48 ==> n == 0,
    decreases n,
{
    if n >= 10 {
        lemma_dec_digits_props(n / 10);
        assert(n / 10 >= 1) by (nonlinear_arith)
            requires
                n >= 10,
        ;
        assert(0 <= n % 10 < 10) by (nonlinear_arith);
        assert(dec_digits(n)[0] == dec_digits(n / 10)[0]);
    }
}

/// Valuing the canonical digits of `n` gives `n` back.
proof fn lemma_digits_val_dec(n: nat)
    ensures
        digits_val(dec_digits(n)) == n,
    decreases n,
{
    if n < 10 {
        assert(dec_digits(n) == seq![(48 + n) as u8]);
        assert(dec_digits(n).drop_last() =~= Seq::<u8>::empty());
        assert(dec_digits(n).last() == (48 + n) as u8);
        assert((48 + n) as u8 as int == 48 + n);
        assert(digits_val(Seq::<u8>::empty()) == 0);
        assert(digits_val(dec_digits(n)) == digits_val(dec_digits(n).drop_last()) * 10 + (
        dec_digits(n).last() - 48) as nat);
        assert(digits_val(dec_digits(n)) == 0 * 10 + ((48 + n) as u8 - 48) as nat);
    } else {
        lemma_digits_val_dec(n / 10);
        assert(0 <= n % 10 < 10) by (nonlinear_arith);
        assert(dec_digits(n).drop_last() =~= dec_digits(n / 10));
        assert(dec_digits(n).last() == (48 + n % 10) as u8);
        assert((48 + n % 10) as u8 as int == 48 + n % 10);
        assert(digits_val(dec_digits(n)) == (n / 10) * 10 + n % 10);
        assert((n / 10) * 10 + n % 10 == n) by (nonlinear_arith);
    }
}

/// A digit run that does not start with zero denotes a positive number.
proof fn lemma_digits_val_pos(s: Seq<u8>)
    requires
        s.len() > 0,
        forall|k: int| 0 <= k < s.len() ==> is_digit(#[trigger] s[k]),
        s[0] != 48,
    ensures
        digits_val(s) >= 1,
    decreases s.len(),
{
    if s.len() == 1 {
        assert(is_digit(s[0]));
    } else {
        lemma_digits_val_pos(s.drop_last());
    }
}

/// A canonical digit run is the canonical digits of its value: decimal
/// notation without leading zeros is unique.
proof fn lemma_dec_digits_canon(s: Seq<u8>)
    requires
        s.len() > 0,
        forall|k: int| 0 <= k < s.len() ==> is_digit(#[trigger] s[k]),
        s[0] != 48 || s.len() == 1,
    ensures
        dec_digits(digits_val(s)) == s,
    decreases s.len(),
{
    if s.len() == 1 {
        assert(is_digit(s[0]));
        assert(s.drop_last() =~= Seq::<u8>::empty());
        assert(s.last() == s[0]);
        assert(digits_val(Seq::<u8>::empty()) == 0);
        assert(digits_val(s) == digits_val(s.drop_last()) * 10 + (s.last() - 48) as nat);
        assert(digits_val(s) == 0 * 10 + (s[0] - 48) as nat);
        assert(digits_val(s) < 10);
        assert((48 + digits_val(s)) as u8 == s[0]);
        assert(dec_digits(digits_val(s)) =~= s);
    } else {
        let s0 = s.drop_last();
        let d = (s.last() - 48) as nat;
        assert(is_digit(s.last()));
        assert(s0[0] == s[0]);
        lemma_dec_digits_canon(s0);
        lemma_digits_val_pos(s0);
        let v = digits_val(s);
        assert(v == digits_val(s0) * 10 + d);
        assert(v >= 10) by (nonlinear_arith)
            requires
                v == digits_val(s0) * 10 + d,
                digits_val(s0) >= 1,
                d >= 0,
        ;
        assert(v / 10 == digits_val(s0) && v % 10 == d) by {
            vstd::arithmetic::div_mod::lemma_fundamental_div_mod_converse(
                v as int,
                10,
                digits_val(s0) as int,
                d as int,
            );
        }
        assert(dec_digits(v) == dec_digits(digits_val(s0)).push((48 + v % 10) as u8));
        assert((48 + v % 10) as u8 == s.last());
        assert(dec_digits(v) =~= s);
    }
}

/// Reading more digits never shrinks the value.
proof fn lemma_digits_val_mono(s: Seq<u8>, m: int)
    requires
        0 <= m <= s.len(),
    ensures
        digits_val(s.take(m)) <= digits_val(s),
    decreases s.len() - m,
{
    if m < s.len() {
        lemma_digits_val_mono(s, m + 1);
        let t = s.take(m + 1);
        assert(t.drop_last() =~= s.take(m));
        assert(digits_val(t) == digits_val(s.take(m)) * 10 + (t.last() - 48) as nat);
        assert(digits_val(s.take(m)) * 10 >= digits_val(s.take(m))) by (nonlinear_arith);
    } else {
        assert(s.take(m) =~= s);
    }
}

/// A subrange equals the two subranges it splits into.
proof fn lemma_seq_split(s: Seq<u8>, i: int, m: int, j: int)
    requires
        0 <= i <= m <= j <= s.len(),
    ensures
        s.subrange(i, j) == s.subrange(i, m) + s.subrange(m, j),
{
    assert(s.subrange(i, j) =~= s.subrange(i, m) + s.subrange(m, j));
}

/// A subrange known to be a concatenation yields each part as a
/// subrange of its own.
proof fn lemma_concat_parts(s: Seq<u8>, i: int, j: int, a: Seq<u8>, b: Seq<u8>)
    requires
        0 <= i <= j <= s.len(),
        j - i == a.len() + b.len(),
        s.subrange(i, j) == a + b,
    ensures
        s.subrange(i, i + a.len()) == a,
        s.subrange(i + a.len(), j) == b,
{
    assert forall|k: int| 0 <= k < a.len() implies s.subrange(i, i + a.len() as int)[k]
        == a[k] by {
        assert(s.subrange(i, j)[k] == (a + b)[k]);
    }
    assert(s.subrange(i, i + a.len() as int) =~= a);
    assert forall|k: int| 0 <= k < b.len() implies s.subrange(i + a.len(), j)[k] == b[k] by {
        assert(s.subrange(i, j)[a.len() + k] == (a + b)[a.len() + k]);
        assert(s.subrange(i, j)[a.len() + k] == s[i + a.len() + k]);
        assert(s.subrange(i + a.len(), j)[k] == s[i + a.len() + k]);
        assert((a + b)[a.len() + k] == b[k]);
    }
    assert(s.subrange(i + a.len(), j) =~= b);
}

/// Reads a canonical decimal number at `i`: the maximal digit run,
/// refused when empty, padded with a leading zero, or too large for
/// `usize`.
pub open spec fn sp_usize(s: Seq<u8>, i: int) -> Option<(usize, int)> {
    let j = first_non_digit(s, i);
    if j == i {
        None
    } else if s[i] == 48 && j > i + 1 {
        None
    } else if digits_val(s.subrange(i, j)) > usize::MAX {
        None
    } else {
        Some((digits_val(s.subrange(i, j)) as usize, j))
    }
}

/// Reads a number token at `i`: the maximal run of number bytes, refused
/// when empty or outside the number grammar.
pub open spec fn sp_token(s: Seq<u8>, i: int) -> Option<(Seq<u8>, int)> {
    let j = first_non_num(s, i);
    if j > i && is_number_token(s.subrange(i, j)) {
        Some((s.subrange(i, j), j))
    } else {
        None
    }
}

/// Reads the remainder of a nonempty dimension list: items separated by
/// commas, closed by the right bracket.
pub open spec fn sp_usize_items(s: Seq<u8>, i: int) -> Option<(Seq<usize>, int)>
    decreases s.len() - i
        when 0 <= i <= s.len()
        via sp_usize_items_decreases
{
    match sp_usize(s, i) {
        None => None,
        Some((n, j)) => {
            if j < s.len() && s[j] == COMMA {
                match sp_usize_items(s, j + 1) {
                    None => None,
                    Some((rest, k)) => Some((seq![n] + rest, k)),
                }
            } else if j < s.len() && s[j] == RBRACKET {
                Some((seq![n], j + 1))
            } else {
                None
            }
        },
    }
}

#[via_fn]
proof fn sp_usize_items_decreases(s: Seq<u8>, i: int) {
    lemma_fnd_bounds(s, i);
}

/// Reads the remainder of a nonempty value list.
pub open spec fn sp_token_items(s: Seq<u8>, i: int) -> Option<(Seq<Seq<u8>>, int)>
    decreases s.len() - i
        when 0 <= i <= s.len()
        via sp_token_items_decreases
{
    match sp_token(s, i) {
        None => None,
        Some((t, j)) => {
            if j < s.len() && s[j] == COMMA {
                match sp_token_items(s, j + 1) {
                    None => None,
                    Some((rest, k)) => Some((seq![t] + rest, k)),
                }
            } else if j < s.len() && s[j] == RBRACKET {
                Some((seq![t], j + 1))
            } else {
                None
            }
        },
    }
}

#[via_fn]
proof fn sp_token_items_decreases(s: Seq<u8>, i: int) {
    lemma_fnn_bounds(s, i);
}

/// Reads a bracketed dimension list.
pub open spec fn sp_usize_list(s: Seq<u8>, i: int) -> Option<(Seq<usize>, int)> {
    if i < s.len() && s[i] == LBRACKET {
        if i + 1 < s.len() && s[i + 1] == RBRACKET {
            Some((Seq::empty(), i + 2))
        } else {
            sp_usize_items(s, i + 1)
        }
    } else {
        None
    }
}

/// Reads a bracketed value list.
pub open spec fn sp_token_list(s: Seq<u8>, i: int) -> Option<(Seq<Seq<u8>>, int)> {
    if i < s.len() && s[i] == LBRACKET {
        if i + 1 < s.len() && s[i + 1] == RBRACKET {
            Some((Seq::empty(), i + 2))
        } else {
            sp_token_items(s, i + 1)
        }
    } else {
        None
    }
}

/// Reads a shape line: a dimension list closed by a line feed.
pub open spec fn sp_shape_line(s: Seq<u8>, i: int) -> Option<(Seq<usize>, int)> {
    match sp_usize_list(s, i) {
        None => None,
        Some((v, j)) => {
            if j < s.len() && s[j] == LINE_FEED {
                Some((v, j + 1))
            } else {
                None
            }
        },
    }
}

/// Reads a value line: a value list closed by a line feed.
pub open spec fn sp_values_line(s: Seq<u8>, i: int) -> Option<(Seq<Seq<u8>>, int)> {
    match sp_token_list(s, i) {
        None => None,
        Some((v, j)) => {
            if j < s.len() && s[j] == LINE_FEED {
                Some((v, j + 1))
            } else {
                None
            }
        },
    }
}

/// Reads one tensor: its shape line then its value line.
pub open spec fn sp_tensor(s: Seq<u8>, i: int) -> Option<(TensorView, int)> {
    match sp_shape_line(s, i) {
        None => None,
        Some((sh, j)) => match sp_values_line(s, j) {
            None => None,
            Some((vals, k)) => Some((TensorView { shape: sh, values: vals }, k)),
        },
    }
}

/// Reads a whole model: four tensors covering the whole text.
pub open spec fn sp_records(s: Seq<u8>) -> Option<RecordsView> {
    match sp_tensor(s, 0) {
        None => None,
        Some((w1, i1)) => match sp_tensor(s, i1) {
            None => None,
            Some((w2, i2)) => match sp_tensor(s, i2) {
                None => None,
                Some((b1, i3)) => match sp_tensor(s, i3) {
                    None => None,
                    Some((b2, i4)) => {
                        if i4 == s.len() {
                            Some(
                                RecordsView {
                                    weights1: w1,
                                    weights2: w2,
                                    biases1: b1,
                                    biases2: b2,
                                },
                            )
                        } else {
                            None
                        }
                    },
                },
            },
        },
    }
}

/// What the items remainder of a dimension list renders to.
pub open spec fn render_usize_items(v: Seq<usize>) -> Seq<u8> {
    join_comma(shape_tokens(v)) + seq![RBRACKET]
}

/// What the items remainder of a value list renders to.
pub open spec fn render_token_items(ts: Seq<Seq<u8>>) -> Seq<u8> {
    join_comma(ts) + seq![RBRACKET]
}

/// A number read from the text sits there as its canonical digits.
proof fn lemma_sound_usize(s: Seq<u8>, i: int)
    requires
        0 <= i <= s.len(),
    ensures
        sp_usize(s, i) matches Some((n, j)) ==> i < j <= s.len() && s.subrange(i, j)
            == dec_digits(n as nat),
{
    lemma_fnd_bounds(s, i);
    if sp_usize(s, i) is Some {
        let j = first_non_digit(s, i);
        let run = s.subrange(i, j);
        assert forall|k: int| 0 <= k < run.len() implies is_digit(#[trigger] run[k]) by {
            assert(run[k] == s[i + k]);
        }
        assert(run[0] == s[i]);
        lemma_dec_digits_canon(run);
    }
}

/// A token read from the text sits there letter for letter.
proof fn lemma_sound_token(s: Seq<u8>, i: int)
    requires
        0 <= i <= s.len(),
    ensures
        sp_token(s, i) matches Some((t, j)) ==> i < j <= s.len() && s.subrange(i, j) == t
            && is_number_token(t),
{
    lemma_fnn_bounds(s, i);
}

/// The items read for a dimension list sit there as their rendering.
proof fn lemma_sound_usize_items(s: Seq<u8>, i: int)
    requires
        0 <= i <= s.len(),
    ensures
        sp_usize_items(s, i) matches Some((v, k)) ==> i < k <= s.len() && v.len() >= 1
            && s.subrange(i, k) == render_usize_items(v),
    decreases s.len() - i,
{
    lemma_sound_usize(s, i);
    if sp_usize_items(s, i) is Some {
        let (n, j) = sp_usize(s, i)->Some_0;
        let item = dec_digits(n as nat);
        if j < s.len() && s[j] == COMMA {
            lemma_sound_usize_items(s, j + 1);
            let (rest, k) = sp_usize_items(s, j + 1)->Some_0;
            let v = seq![n] + rest;
            lemma_seq_split(s, i, j, k);
            lemma_seq_split(s, j, j + 1, k);
            assert(s.subrange(j, j + 1) =~= seq![COMMA]);
            assert(shape_tokens(v) =~~= seq![item] + shape_tokens(rest));
            assert(shape_tokens(v).len() >= 2);
            assert(shape_tokens(v)[0] == item);
            assert(shape_tokens(v).drop_first() =~~= shape_tokens(rest));
            assert(join_comma(shape_tokens(v)) == item + seq![COMMA] + join_comma(
                shape_tokens(rest),
            ));
            assert(s.subrange(i, k) =~= item + (seq![COMMA] + (join_comma(shape_tokens(rest))
                + seq![RBRACKET])));
            assert(render_usize_items(v) =~= item + (seq![COMMA] + (join_comma(
                shape_tokens(rest),
            ) + seq![RBRACKET])));
        } else if j < s.len() && s[j] == RBRACKET {
            let v = seq![n];
            lemma_seq_split(s, i, j, j + 1);
            assert(s.subrange(j, j + 1) =~= seq![RBRACKET]);
            assert(shape_tokens(v) =~~= seq![item]);
            assert(join_comma(shape_tokens(v)) == item);
            assert(s.subrange(i, j + 1) =~= render_usize_items(v));
        }
    }
}

/// The items read for a value list sit there as their rendering, and
/// each follows the number grammar.
proof fn lemma_sound_token_items(s: Seq<u8>, i: int)
    requires
        0 <= i <= s.len(),
    ensures
        sp_token_items(s, i) matches Some((v, k)) ==> i < k <= s.len() && v.len() >= 1
            && s.subrange(i, k) == render_token_items(v) && wf_tokens(v),
    decreases s.len() - i,
{
    lemma_sound_token(s, i);
    if sp_token_items(s, i) is Some {
        let (t, j) = sp_token(s, i)->Some_0;
        if j < s.len() && s[j] == COMMA {
            lemma_sound_token_items(s, j + 1);
            let (rest, k) = sp_token_items(s, j + 1)->Some_0;
            let v = seq![t] + rest;
            lemma_seq_split(s, i, j, k);
            lemma_seq_split(s, j, j + 1, k);
            assert(s.subrange(j, j + 1) =~= seq![COMMA]);
            assert(v.len() >= 2);
            assert(v[0] == t);
            assert(v.drop_first() =~~= rest);
            assert(join_comma(v) == t + seq![COMMA] + join_comma(rest));
            assert(s.subrange(i, k) =~= t + (seq![COMMA] + (join_comma(rest) + seq![RBRACKET])));
            assert(render_token_items(v) =~= t + (seq![COMMA] + (join_comma(rest) + seq![
                RBRACKET,
            ])));
            assert forall|m: int| 0 <= m < v.len() implies is_number_token(#[trigger] v[m]) by {
                if m > 0 {
                    assert(v[m] == rest[m - 1]);
                }
            }
        } else if j < s.len() && s[j] == RBRACKET {
            let v = seq![t];
            lemma_seq_split(s, i, j, j + 1);
            assert(s.subrange(j, j + 1) =~= seq![RBRACKET]);
            assert(join_comma(v) == t);
            assert(s.subrange(i, j + 1) =~= render_token_items(v));
        }
    }
}

/// A dimension list read from the text sits there as its rendering.
proof fn lemma_sound_usize_list(s: Seq<u8>, i: int)
    requires
        0 <= i <= s.len(),
    ensures
        sp_usize_list(s, i) matches Some((v, j)) ==> i < j <= s.len() && s.subrange(i, j)
            == render_list(shape_tokens(v)),
{
    if sp_usize_list(s, i) is Some {
        if i + 1 < s.len() && s[i + 1] == RBRACKET {
            assert(shape_tokens(Seq::<usize>::empty()) =~~= Seq::<Seq<u8>>::empty());
            assert(s.subrange(i, i + 2) =~= render_list(shape_tokens(Seq::<usize>::empty())));
        } else {
            lemma_sound_usize_items(s, i + 1);
            let (v, j) = sp_usize_items(s, i + 1)->Some_0;
            lemma_seq_split(s, i, i + 1, j);
            assert(s.subrange(i, i + 1) =~= seq![LBRACKET]);
            assert(render_list(shape_tokens(v)) =~= seq![LBRACKET] + render_usize_items(v));
        }
    }
}

/// A value list read from the text sits there as its rendering.
proof fn lemma_sound_token_list(s: Seq<u8>, i: int)
    requires
        0 <= i <= s.len(),
    ensures
        sp_token_list(s, i) matches Some((v, j)) ==> i < j <= s.len() && s.subrange(i, j)
            == render_list(v) && wf_tokens(v),
{
    if sp_token_list(s, i) is Some {
        if i + 1 < s.len() && s[i + 1] == RBRACKET {
            assert(s.subrange(i, i + 2) =~= render_list(Seq::<Seq<u8>>::empty()));
        } else {
            lemma_sound_token_items(s, i + 1);
            let (v, j) = sp_token_items(s, i + 1)->Some_0;
            lemma_seq_split(s, i, i + 1, j);
            assert(s.subrange(i, i + 1) =~= seq![LBRACKET]);
            assert(render_list(v) =~= seq![LBRACKET] + render_token_items(v));
        }
    }
}

/// A tensor read from the text sits there as its two rendered lines.
proof fn lemma_sound_tensor(s: Seq<u8>, i: int)
    requires
        0 <= i <= s.len(),
    ensures
        sp_tensor(s, i) matches Some((t, j)) ==> i < j <= s.len() && s.subrange(i, j)
            == render_tensor(t) && wf_tokens(t.values),
{
    lemma_sound_usize_list(s, i);
    if sp_tensor(s, i) is Some {
        let (sh, j1) = sp_usize_list(s, i)->Some_0;
        lemma_sound_token_list(s, j1 + 1);
        let (vals, j2) = sp_token_list(s, j1 + 1)->Some_0;
        let j = j2 + 1;
        lemma_seq_split(s, i, j1, j);
        lemma_seq_split(s, j1, j1 + 1, j);
        lemma_seq_split(s, j1 + 1, j2, j);
        assert(s.subrange(j1, j1 + 1) =~= seq![LINE_FEED]);
        assert(s.subrange(j2, j) =~= seq![LINE_FEED]);
        let t = TensorView { shape: sh, values: vals };
        assert(s.subrange(i, j) =~= render_list(shape_tokens(t.shape)) + (seq![LINE_FEED] + (
        render_list(t.values) + seq![LINE_FEED])));
        assert(render_tensor(t) =~= render_list(shape_tokens(t.shape)) + (seq![LINE_FEED] + (
        render_list(t.values) + seq![LINE_FEED])));
    }
}

/// A model read from the text is well formed and sits there as its full
/// rendering: an accepted file is exactly the canonical text of what it
/// yields.
#[verifier::rlimit(60)]
pub proof fn lemma_sound_records(s: Seq<u8>)
    ensures
        sp_records(s) matches Some(rv) ==> wf_records(rv) && s == spec_render_records(rv),
{
    lemma_sound_tensor(s, 0);
    if sp_records(s) is Some {
        let (w1, i1) = sp_tensor(s, 0)->Some_0;
        lemma_sound_tensor(s, i1);
        let (w2, i2) = sp_tensor(s, i1)->Some_0;
        lemma_sound_tensor(s, i2);
        let (b1, i3) = sp_tensor(s, i2)->Some_0;
        lemma_sound_tensor(s, i3);
        let (b2, i4) = sp_tensor(s, i3)->Some_0;
        lemma_seq_split(s, 0, i1, i4);
        lemma_seq_split(s, i1, i2, i4);
        lemma_seq_split(s, i2, i3, i4);
        assert(s.subrange(0, i4) =~= s);
        let rv = sp_records(s)->Some_0;
        assert(s =~= render_tensor(w1) + (render_tensor(w2) + (render_tensor(b1) + render_tensor(
            b2,
        ))));
        assert(spec_render_records(rv) =~= render_tensor(w1) + (render_tensor(w2) + (
        render_tensor(b1) + render_tensor(b2))));
    }
}

/// Canonical digits sitting in the text, bounded by a non-digit, are
/// read back as their number.
proof fn lemma_comp_usize(s: Seq<u8>, i: int, n: usize)
    requires
        0 <= i,
        i + dec_digits(n as nat).len() <= s.len(),
        s.subrange(i, i + dec_digits(n as nat).len()) == dec_digits(n as nat),
        i + dec_digits(n as nat).len() == s.len() || !is_digit(
            s[i + dec_digits(n as nat).len()],
        ),
    ensures
        sp_usize(s, i) == Some((n, i + dec_digits(n as nat).len())),
{
    let d = dec_digits(n as nat);
    let m = i + d.len();
    lemma_dec_digits_props(n as nat);
    assert forall|k: int| i <= k < m implies is_digit(#[trigger] s[k]) by {
        assert(s.subrange(i, m)[k - i] == d[k - i]);
    }
    lemma_fnd_from(s, i, m);
    assert(s[i] == d[0]);
    if s[i] == 48 {
        assert(n == 0);
        assert(m == i + 1);
    }
    lemma_digits_val_dec(n as nat);
}

/// A well-formed token sitting in the text, bounded by a byte outside
/// the token alphabet, is read back letter for letter.
proof fn lemma_comp_token(s: Seq<u8>, i: int, t: Seq<u8>)
    requires
        0 <= i,
        i + t.len() <= s.len(),
        s.subrange(i, i + t.len()) == t,
        is_number_token(t),
        i + t.len() == s.len() || !is_num_byte(s[i + t.len()]),
    ensures
        sp_token(s, i) == Some((t, i + t.len())),
{
    let m = i + t.len();
    lemma_number_token_bytes(t);
    assert forall|k: int| i <= k < m implies is_num_byte(#[trigger] s[k]) by {
        assert(s.subrange(i, m)[k - i] == t[k - i]);
    }
    lemma_fnn_from(s, i, m);
}

/// Rendered dimension items sitting in the text are read back.
proof fn lemma_comp_usize_items(s: Seq<u8>, i: int, v: Seq<usize>)
    requires
        0 <= i,
        v.len() >= 1,
        i + render_usize_items(v).len() <= s.len(),
        s.subrange(i, i + render_usize_items(v).len()) == render_usize_items(v),
    ensures
        sp_usize_items(s, i) == Some((v, i + render_usize_items(v).len())),
    decreases v.len(),
{
    let d = dec_digits(v[0] as nat);
    let toks = shape_tokens(v);
    let r = render_usize_items(v);
    let m = i + r.len();
    lemma_dec_digits_props(v[0] as nat);
    assert(toks[0] == d);
    if v.len() == 1 {
        assert(toks =~~= seq![d]);
        assert(join_comma(toks) == d);
        assert(r =~= d + seq![RBRACKET]);
        lemma_concat_parts(s, i, m, d, seq![RBRACKET]);
        let j = i + d.len();
        assert(s[j] == RBRACKET) by {
            assert(s.subrange(j, m)[0] == seq![RBRACKET][0]);
        }
        lemma_comp_usize(s, i, v[0]);
        assert(seq![v[0]] =~= v);
    } else {
        let rest = v.drop_first();
        let rrest = render_usize_items(rest);
        assert(toks.len() >= 2);
        assert(toks.drop_first() =~~= shape_tokens(rest));
        assert(join_comma(toks) == d + seq![COMMA] + join_comma(shape_tokens(rest)));
        assert(r =~= d + (seq![COMMA] + rrest));
        lemma_concat_parts(s, i, m, d, seq![COMMA] + rrest);
        let j = i + d.len();
        lemma_concat_parts(s, j, m, seq![COMMA], rrest);
        assert(s[j] == COMMA) by {
            assert(s.subrange(j, j + 1)[0] == seq![COMMA][0]);
        }
        lemma_comp_usize(s, i, v[0]);
        lemma_comp_usize_items(s, j + 1, rest);
        assert(seq![v[0]] + rest =~= v);
    }
}

/// Rendered value items sitting in the text are read back.
proof fn lemma_comp_token_items(s: Seq<u8>, i: int, v: Seq<Seq<u8>>)
    requires
        0 <= i,
        v.len() >= 1,
        wf_tokens(v),
        i + render_token_items(v).len() <= s.len(),
        s.subrange(i, i + render_token_items(v).len()) == render_token_items(v),
    ensures
        sp_token_items(s, i) == Some((v, i + render_token_items(v).len())),
    decreases v.len(),
{
    let t = v[0];
    let r = render_token_items(v);
    let m = i + r.len();
    assert(is_number_token(t));
    if v.len() == 1 {
        assert(join_comma(v) == t);
        assert(r =~= t + seq![RBRACKET]);
        lemma_concat_parts(s, i, m, t, seq![RBRACKET]);
        let j = i + t.len();
        assert(s[j] == RBRACKET) by {
            assert(s.subrange(j, m)[0] == seq![RBRACKET][0]);
        }
        lemma_comp_token(s, i, t);
        assert(seq![t] =~~= v);
    } else {
        let rest = v.drop_first();
        let rrest = render_token_items(rest);
        assert(join_comma(v) == t + seq![COMMA] + join_comma(rest));
        assert(r =~= t + (seq![COMMA] + rrest));
        lemma_concat_parts(s, i, m, t, seq![COMMA] + rrest);
        let j = i + t.len();
        lemma_concat_parts(s, j, m, seq![COMMA], rrest);
        assert(s[j] == COMMA) by {
            assert(s.subrange(j, j + 1)[0] == seq![COMMA][0]);
        }
        lemma_comp_token(s, i, t);
        assert forall|k: int| 0 <= k < rest.len() implies is_number_token(
            #[trigger] rest[k],
        ) by {
            assert(rest[k] == v[k + 1]);
        }
        lemma_comp_token_items(s, j + 1, rest);
        assert(seq![t] + rest =~~= v);
    }
}

/// A rendered dimension list sitting in the text is read back.
proof fn lemma_comp_usize_list(s: Seq<u8>, i: int, v: Seq<usize>)
    requires
        0 <= i,
        i + render_list(shape_tokens(v)).len() <= s.len(),
        s.subrange(i, i + render_list(shape_tokens(v)).len()) == render_list(shape_tokens(v)),
    ensures
        sp_usize_list(s, i) == Some((v, i + render_list(shape_tokens(v)).len())),
{
    let r = render_list(shape_tokens(v));
    let m = i + r.len();
    assert(s[i] == LBRACKET) by {
        assert(s.subrange(i, m)[0] == r[0]);
    }
    if v.len() == 0 {
        assert(join_comma(shape_tokens(v)) == Seq::<u8>::empty());
        assert(r =~= seq![LBRACKET, RBRACKET]);
        assert(s[i + 1] == RBRACKET) by {
            assert(s.subrange(i, m)[1] == r[1]);
        }
        assert(Seq::<usize>::empty() =~= v);
    } else {
        let d = dec_digits(v[0] as nat);
        let items = render_usize_items(v);
        lemma_dec_digits_props(v[0] as nat);
        assert(items[0] == d[0]) by {
            if v.len() == 1 {
                assert(join_comma(shape_tokens(v)) == d);
            } else {
                assert(join_comma(shape_tokens(v)) == shape_tokens(v)[0] + seq![COMMA]
                    + join_comma(shape_tokens(v).drop_first()));
            }
        }
        assert(r =~= seq![LBRACKET] + items);
        lemma_concat_parts(s, i, m, seq![LBRACKET], items);
        assert(s[i + 1] == d[0]) by {
            assert(s.subrange(i + 1, m)[0] == items[0]);
        }
        assert(is_digit(d[0]));
        assert(s[i + 1] != RBRACKET);
        lemma_comp_usize_items(s, i + 1, v);
    }
}

/// A rendered value list sitting in the text is read back.
proof fn lemma_comp_token_list(s: Seq<u8>, i: int, v: Seq<Seq<u8>>)
    requires
        0 <= i,
        wf_tokens(v),
        i + render_list(v).len() <= s.len(),
        s.subrange(i, i + render_list(v).len()) == render_list(v),
    ensures
        sp_token_list(s, i) == Some((v, i + render_list(v).len())),
{
    let r = render_list(v);
    let m = i + r.len();
    assert(s[i] == LBRACKET) by {
        assert(s.subrange(i, m)[0] == r[0]);
    }
    if v.len() == 0 {
        assert(join_comma(v) == Seq::<u8>::empty());
        assert(r =~= seq![LBRACKET, RBRACKET]);
        assert(s[i + 1] == RBRACKET) by {
            assert(s.subrange(i, m)[1] == r[1]);
        }
        assert(Seq::<Seq<u8>>::empty() =~~= v);
    } else {
        let t = v[0];
        let items = render_token_items(v);
        assert(is_number_token(t));
        lemma_number_token_bytes(t);
        assert(items[0] == t[0]) by {
            if v.len() == 1 {
                assert(join_comma(v) == t);
            } else {
                assert(join_comma(v) == t + seq![COMMA] + join_comma(v.drop_first()));
            }
        }
        assert(r =~= seq![LBRACKET] + items);
        lemma_concat_parts(s, i, m, seq![LBRACKET], items);
        assert(s[i + 1] == t[0]) by {
            assert(s.subrange(i + 1, m)[0] == items[0]);
        }
        assert(is_num_byte(t[0]));
        assert(s[i + 1] != RBRACKET);
        lemma_comp_token_items(s, i + 1, v);
    }
}

/// A rendered tensor sitting in the text is read back.
proof fn lemma_comp_tensor(s: Seq<u8>, i: int, t: TensorView)
    requires
        0 <= i,
        wf_tokens(t.values),
        i + render_tensor(t).len() <= s.len(),
        s.subrange(i, i + render_tensor(t).len()) == render_tensor(t),
    ensures
        sp_tensor(s, i) == Some((t, i + render_tensor(t).len())),
{
    let shape_list = render_list(shape_tokens(t.shape));
    let value_list = render_list(t.values);
    let r = render_tensor(t);
    let m = i + r.len();
    assert(r =~= shape_list + (seq![LINE_FEED] + (value_list + seq![LINE_FEED])));
    lemma_concat_parts(s, i, m, shape_list, seq![LINE_FEED] + (value_list + seq![LINE_FEED]));
    let j1 = i + shape_list.len();
    lemma_concat_parts(s, j1, m, seq![LINE_FEED], value_list + seq![LINE_FEED]);
    lemma_concat_parts(s, j1 + 1, m, value_list, seq![LINE_FEED]);
    let j2 = j1 + 1 + value_list.len();
    assert(s[j1] == LINE_FEED) by {
        assert(s.subrange(j1, j1 + 1)[0] == seq![LINE_FEED][0]);
    }
    assert(s[j2] == LINE_FEED) by {
        assert(s.subrange(j2, m)[0] == seq![LINE_FEED][0]);
    }
    lemma_comp_usize_list(s, i, t.shape);
    lemma_comp_token_list(s, j1 + 1, t.values);
    assert(TensorView { shape: t.shape, values: t.values } == t);
}

/// The whole rendered model is read back: parsing inverts rendering on
/// every well-formed model record.
pub proof fn lemma_comp_records(s: Seq<u8>, rv: RecordsView)
    requires
        wf_records(rv),
        s == spec_render_records(rv),
    ensures
        sp_records(s) == Some(rv),
{
    let r1 = render_tensor(rv.weights1);
    let r2 = render_tensor(rv.weights2);
    let r3 = render_tensor(rv.biases1);
    let r4 = render_tensor(rv.biases2);
    assert(s.subrange(0, s.len() as int) =~= s);
    assert(s.subrange(0, s.len() as int) == r1 + (r2 + (r3 + r4))) by {
        assert(s =~= r1 + (r2 + (r3 + r4)));
    }
    lemma_concat_parts(s, 0, s.len() as int, r1, r2 + (r3 + r4));
    let i1 = r1.len() as int;
    lemma_concat_parts(s, i1, s.len() as int, r2, r3 + r4);
    let i2 = i1 + r2.len();
    lemma_concat_parts(s, i2, s.len() as int, r3, r4);
    let i3 = i2 + r3.len();
    let i4 = i3 + r4.len();
    lemma_comp_tensor(s, 0, rv.weights1);
    lemma_comp_tensor(s, i1, rv.weights2);
    lemma_comp_tensor(s, i2, rv.biases1);
    lemma_comp_tensor(s, i3, rv.biases2);
    assert(i4 == s.len());
    assert(RecordsView {
        weights1: rv.weights1,
        weights2: rv.weights2,
        biases1: rv.biases1,
        biases2: rv.biases2,
    } == rv);
}

/// Every value token follows the number grammar.
pub open spec fn wf_tokens(ts: Seq<Seq<u8>>) -> bool {
    forall|i: int| 0 <= i < ts.len() ==> is_number_token(#[trigger] ts[i])
}

/// Well-formed records: every value token of every tensor follows the
/// number grammar, so the rendered text parses back.
pub open spec fn wf_records(m: RecordsView) -> bool {
    wf_tokens(m.weights1.values) && wf_tokens(m.weights2.values) && wf_tokens(m.biases1.values)
        && wf_tokens(m.biases2.values)
}

/// Declared shapes that fit the network: two dimensions for each weight
/// matrix and one for each bias vector, all positive, the hidden and
/// output sizes agreeing across tensors, and each declared value count
/// equal to the product of its dimensions.
pub open spec fn records_consistent(m: RecordsView) -> bool {
    &&& m.weights1.shape.len() == 2
    &&& m.weights2.shape.len() == 2
    &&& m.biases1.shape.len() == 1
    &&& m.biases2.shape.len() == 1
    &&& m.weights1.shape[0] > 0
    &&& m.weights1.shape[1] > 0
    &&& m.weights2.shape[1] > 0
    &&& m.weights2.shape[0] == m.weights1.shape[1]
    &&& m.biases1.shape[0] == m.weights1.shape[1]
    &&& m.biases2.shape[0] == m.weights2.shape[1]
    &&& m.weights1.values.len() == m.weights1.shape[0] * m.weights1.shape[1]
    &&& m.weights2.values.len() == m.weights2.shape[0] * m.weights2.shape[1]
    &&& m.biases1.values.len() == m.biases1.shape[0]
    &&& m.biases2.values.len() == m.biases2.shape[0]
}

/// Decides whether parsed records declare internally consistent shapes;
/// a load refuses records that do not.
pub fn check_records_consistent(rec: &ModelRecords) -> (r: bool)
    ensures
        r == records_consistent(rec@),
{
    if rec.weights1.shape.len() != 2 || rec.weights2.shape.len() != 2
        || rec.biases1.shape.len() != 1 || rec.biases2.shape.len() != 1 {
        return false;
    }
    let input_size = rec.weights1.shape[0];
    let hidden_size = rec.weights1.shape[1];
    let output_size = rec.weights2.shape[1];
    if input_size == 0 || hidden_size == 0 || output_size == 0 {
        return false;
    }
    if rec.weights2.shape[0] != hidden_size || rec.biases1.shape[0] != hidden_size
        || rec.biases2.shape[0] != output_size {
        return false;
    }
    let l1 = rec.weights1.values.len();
    let l2 = rec.weights2.values.len();
    match input_size.checked_mul(hidden_size) {
        Some(p) => {
            if l1 != p {
                return false;
            }
        },
        None => {
            assert(l1 < rec@.weights1.shape[0] * rec@.weights1.shape[1]);
            return false;
        },
    }
    match hidden_size.checked_mul(output_size) {
        Some(p) => {
            if l2 != p {
                return false;
            }
        },
        None => {
            assert(l2 < rec@.weights2.shape[0] * rec@.weights2.shape[1]);
            return false;
        },
    }
    rec.biases1.values.len() == hidden_size && rec.biases2.values.len() == output_size
}

/// Decides whether every token of the list follows the number grammar.
fn check_tokens(ts: &Vec<Vec<u8>>) -> (r: bool)
    ensures
        r == wf_tokens(ts.deep_view()),
{
    let mut i: usize = 0;
    while i < ts.len()
        invariant
            i <= ts@.len(),
            forall|j: int| 0 <= j < i ==> is_number_token(#[trigger] ts.deep_view()[j]),
        decreases ts@.len() - i,
    {
        let ok = check_number_token(&ts[i]);
        proof {
            assert(ts[i as int]@ == ts.deep_view()[i as int]);
        }
        if !ok {
            return false;
        }
        i += 1;
    }
    true
}

/// Decides whether records are well formed: every value token of every
/// tensor follows the number grammar, so their rendering parses back.
pub fn records_wf_check(rec: &ModelRecords) -> (r: bool)
    ensures
        r == wf_records(rec@),
{
    check_tokens(&rec.weights1.values) && check_tokens(&rec.weights2.values) && check_tokens(
        &rec.biases1.values,
    ) && check_tokens(&rec.biases2.values)
}

/// Appends the canonical decimal digits of `n`.
fn push_dec(out: &mut Vec<u8>, n: usize)
    ensures
        final(out)@ == old(out)@ + dec_digits(n as nat),
    decreases n,
{
    if n >= 10 {
        push_dec(out, n / 10);
    }
    let ghost mid = out@;
    out.push(48 + (n % 10) as u8);
    proof {
        assert(final(out)@ =~= mid + seq![(48 + (n as nat) % 10) as u8]);
        if n < 10 {
            assert(dec_digits(n as nat) =~= seq![(48 + (n as nat)) as u8]);
            assert(old(out)@ + dec_digits(n as nat) =~= final(out)@);
        } else {
            assert(old(out)@ + dec_digits(n as nat) =~= final(out)@);
        }
    }
}

/// After appending one more item's text, the joined list grows by a comma
/// and the item, except for the first item.
proof fn lemma_join_push(ts: Seq<Seq<u8>>, t: Seq<u8>)
    ensures
        ts.len() == 0 ==> join_comma(ts.push(t)) == t,
        ts.len() > 0 ==> join_comma(ts.push(t)) == join_comma(ts) + seq![COMMA] + t,
    decreases ts.len(),
{
    if ts.len() == 0 {
        assert(ts.push(t).len() == 1);
        assert(join_comma(ts.push(t)) == ts.push(t)[0]);
        assert(ts.push(t)[0] == t);
    } else {
        lemma_join_push(ts.drop_first(), t);
        assert(ts.push(t).drop_first() =~~= ts.drop_first().push(t));
        assert(ts.push(t)[0] == ts[0]);
        if ts.len() == 1 {
            assert(join_comma(ts.push(t)) == ts[0] + seq![COMMA] + t);
            assert(join_comma(ts) == ts[0]);
        } else {
            assert(join_comma(ts.push(t)) == ts[0] + seq![COMMA] + (join_comma(ts.drop_first())
                + seq![COMMA] + t));
            assert(ts[0] + seq![COMMA] + (join_comma(ts.drop_first()) + seq![COMMA] + t) =~= (ts[0]
                + seq![COMMA] + join_comma(ts.drop_first())) + seq![COMMA] + t);
        }
    }
}

/// Appends the shape list line body `[d0,d1,...]`.
fn push_usize_list(out: &mut Vec<u8>, items: &Vec<usize>)
    ensures
        final(out)@ == old(out)@ + render_list(shape_tokens(items@)),
{
    out.push(LBRACKET);
    let mut i: usize = 0;
    while i < items.len()
        invariant
            i <= items@.len(),
            out@ == old(out)@ + seq![LBRACKET] + join_comma(shape_tokens(items@.take(i as int))),
        decreases items@.len() - i,
    {
        let ghost before = out@;
        if i > 0 {
            out.push(COMMA);
        }
        push_dec(out, items[i]);
        proof {
            let ghost toks = shape_tokens(items@.take(i as int));
            lemma_join_push(toks, dec_digits(items@[i as int] as nat));
            assert(shape_tokens(items@.take(i + 1)) =~~= toks.push(
                dec_digits(items@[i as int] as nat),
            ));
            if i == 0 {
                assert(toks.len() == 0);
                assert(out@ =~= old(out)@ + seq![LBRACKET] + join_comma(
                    shape_tokens(items@.take(i + 1)),
                ));
            } else {
                assert(out@ =~= old(out)@ + seq![LBRACKET] + join_comma(
                    shape_tokens(items@.take(i + 1)),
                ));
            }
        }
        i += 1;
    }
    out.push(RBRACKET);
    proof {
        assert(items@.take(items@.len() as int) =~= items@);
        assert(final(out)@ =~= old(out)@ + render_list(shape_tokens(items@)));
    }
}

/// Appends the value list line body `[t0,t1,...]`.
fn push_token_list(out: &mut Vec<u8>, items: &Vec<Vec<u8>>)
    ensures
        final(out)@ == old(out)@ + render_list(items.deep_view()),
{
    out.push(LBRACKET);
    let mut i: usize = 0;
    while i < items.len()
        invariant
            i <= items@.len(),
            out@ == old(out)@ + seq![LBRACKET] + join_comma(items.deep_view().take(i as int)),
        decreases items@.len() - i,
    {
        if i > 0 {
            out.push(COMMA);
        }
        let tok = &items[i];
        out.extend_from_slice(tok.as_slice());
        proof {
            let ghost toks = items.deep_view().take(i as int);
            lemma_join_push(toks, items.deep_view()[i as int]);
            assert(items.deep_view().take(i + 1) =~~= toks.push(items.deep_view()[i as int]));
            assert(tok@ == items.deep_view()[i as int]);
            assert(out@ =~= old(out)@ + seq![LBRACKET] + join_comma(
                items.deep_view().take(i + 1),
            ));
        }
        i += 1;
    }
    out.push(RBRACKET);
    proof {
        assert(items.deep_view().take(items.deep_view().len() as int) =~~= items.deep_view());
        assert(final(out)@ =~= old(out)@ + render_list(items.deep_view()));
    }
}

/// Appends a tensor's two lines.
fn push_tensor(out: &mut Vec<u8>, t: &TensorRecord)
    ensures
        final(out)@ == old(out)@ + render_tensor(t@),
{
    push_usize_list(out, &t.shape);
    out.push(LINE_FEED);
    push_token_list(out, &t.values);
    out.push(LINE_FEED);
    proof {
        assert(final(out)@ =~= old(out)@ + render_tensor(t@));
    }
}

/// Decides whether a byte may stand in a number token.
fn is_num_byte_exec(b: u8) -> (r: bool)
    ensures
        r == is_num_byte(b),
{
    (48 <= b && b <= 57) || b == MINUS || b == PLUS || b == DOT || b == LOWER_E || b == UPPER_E
}

/// Finds the end of the number-byte run starting at `i`.
fn scan_num(s: &Vec<u8>, i: usize) -> (j: usize)
    requires
        i <= s@.len(),
    ensures
        j as int == first_non_num(s@, i as int),
        i <= j <= s@.len(),
{
    let n = s.len();
    let mut j = i;
    while j < n && is_num_byte_exec(s[j])
        invariant
            i <= j <= n,
            n == s@.len(),
            first_non_num(s@, i as int) == first_non_num(s@, j as int),
        decreases n - j,
    {
        j += 1;
    }
    proof {
        lemma_fnn_bounds(s@, i as int);
    }
    j
}

/// Reads a canonical decimal number, as `sp_usize` describes.
fn parse_usize_at(s: &Vec<u8>, i: usize) -> (r: Option<(usize, usize)>)
    requires
        i <= s@.len(),
    ensures
        match r {
            Some((n, j)) => sp_usize(s@, i as int) == Some((n, j as int)) && i < j <= s@.len(),
            None => sp_usize(s@, i as int) is None,
        },
{
    let j = scan_digits(s, i);
    if j == i {
        return None;
    }
    if s[i] == 48 && j != i + 1 {
        return None;
    }
    let ghost run = s@.subrange(i as int, j as int);
    let mut acc: usize = 0;
    let mut k = i;
    while k < j
        invariant
            i <= k <= j <= s@.len(),
            j as int == first_non_digit(s@, i as int),
            run == s@.subrange(i as int, j as int),
            acc as nat == digits_val(s@.subrange(i as int, k as int)),
        decreases j - k,
    {
        proof {
            lemma_fnd_bounds(s@, i as int);
            assert(is_digit(s@[k as int]));
        }
        let b = s[k];
        let d = (b - 48) as usize;
        let ghost pre = s@.subrange(i as int, k + 1);
        proof {
            assert(pre.drop_last() =~= s@.subrange(i as int, k as int));
            assert(pre.last() == s@[k as int]);
            assert(digits_val(pre) == (acc as nat) * 10 + (b - 48) as nat);
            assert(pre =~= run.take(k + 1 - i));
        }
        let acc10 = match acc.checked_mul(10) {
            Some(m) => m,
            None => {
                proof {
                    lemma_digits_val_mono(run, k + 1 - i);
                }
                return None;
            },
        };
        let acc2 = match acc10.checked_add(d) {
            Some(m) => m,
            None => {
                proof {
                    lemma_digits_val_mono(run, k + 1 - i);
                }
                return None;
            },
        };
        acc = acc2;
        k += 1;
    }
    Some((acc, j))
}

/// Reads a number token, as `sp_token` describes.
fn parse_token_at(s: &Vec<u8>, i: usize) -> (r: Option<(Vec<u8>, usize)>)
    requires
        i <= s@.len(),
    ensures
        match r {
            Some((t, j)) => sp_token(s@, i as int) == Some((t@, j as int)) && i < j <= s@.len(),
            None => sp_token(s@, i as int) is None,
        },
{
    let j = scan_num(s, i);
    if j == i {
        return None;
    }
    let mut tok: Vec<u8> = Vec::new();
    let mut k = i;
    while k < j
        invariant
            i <= k <= j <= s@.len(),
            tok@ == s@.subrange(i as int, k as int),
        decreases j - k,
    {
        tok.push(s[k]);
        proof {
            assert(s@.subrange(i as int, k + 1) =~= s@.subrange(i as int, k as int).push(
                s@[k as int],
            ));
        }
        k += 1;
    }
    if check_number_token(&tok) {
        Some((tok, j))
    } else {
        None
    }
}

/// Reads the items of a dimension list, as `sp_usize_items` describes.
fn parse_usize_items_at(s: &Vec<u8>, i: usize) -> (r: Option<(Vec<usize>, usize)>)
    requires
        i <= s@.len(),
    ensures
        match r {
            Some((v, j)) => sp_usize_items(s@, i as int) == Some((v@, j as int)) && i < j
                <= s@.len(),
            None => sp_usize_items(s@, i as int) is None,
        },
    decreases s@.len() - i,
{
    match parse_usize_at(s, i) {
        None => None,
        Some((n, j)) => {
            if j < s.len() && s[j] == COMMA {
                match parse_usize_items_at(s, j + 1) {
                    None => None,
                    Some((rest, k)) => {
                        let mut out: Vec<usize> = Vec::new();
                        out.push(n);
                        let mut tail = rest;
                        out.append(&mut tail);
                        proof {
                            assert(out@ =~= seq![n] + sp_usize_items(s@, j + 1)->Some_0.0);
                        }
                        Some((out, k))
                    },
                }
            } else if j < s.len() && s[j] == RBRACKET {
                let mut out: Vec<usize> = Vec::new();
                out.push(n);
                proof {
                    assert(out@ =~= seq![n]);
                }
                Some((out, j + 1))
            } else {
                None
            }
        },
    }
}

/// Reads the items of a value list, as `sp_token_items` describes.
fn parse_token_items_at(s: &Vec<u8>, i: usize) -> (r: Option<(Vec<Vec<u8>>, usize)>)
    requires
        i <= s@.len(),
    ensures
        match r {
            Some((v, j)) => sp_token_items(s@, i as int) == Some((v.deep_view(), j as int)) && i
                < j <= s@.len(),
            None => sp_token_items(s@, i as int) is None,
        },
    decreases s@.len() - i,
{
    match parse_token_at(s, i) {
        None => None,
        Some((t, j)) => {
            if j < s.len() && s[j] == COMMA {
                match parse_token_items_at(s, j + 1) {
                    None => None,
                    Some((rest, k)) => {
                        let ghost rest_view = rest.deep_view();
                        let mut out: Vec<Vec<u8>> = Vec::new();
                        let ghost tok_view = t@;
                        out.push(t);
                        let mut tail = rest;
                        out.append(&mut tail);
                        proof {
                            assert(out.deep_view() =~~= seq![tok_view] + rest_view);
                        }
                        Some((out, k))
                    },
                }
            } else if j < s.len() && s[j] == RBRACKET {
                let ghost tok_view = t@;
                let mut out: Vec<Vec<u8>> = Vec::new();
                out.push(t);
                proof {
                    assert(out.deep_view() =~~= seq![tok_view]);
                }
                Some((out, j + 1))
            } else {
                None
            }
        },
    }
}

/// Reads a bracketed dimension list, as `sp_usize_list` describes.
fn parse_usize_list_at(s: &Vec<u8>, i: usize) -> (r: Option<(Vec<usize>, usize)>)
    requires
        i <= s@.len(),
    ensures
        match r {
            Some((v, j)) => sp_usize_list(s@, i as int) == Some((v@, j as int)) && i < j
                <= s@.len(),
            None => sp_usize_list(s@, i as int) is None,
        },
{
    if i < s.len() && s[i] == LBRACKET {
        if i + 1 < s.len() && s[i + 1] == RBRACKET {
            let out: Vec<usize> = Vec::new();
            Some((out, i + 2))
        } else {
            parse_usize_items_at(s, i + 1)
        }
    } else {
        None
    }
}

/// Reads a bracketed value list, as `sp_token_list` describes.
fn parse_token_list_at(s: &Vec<u8>, i: usize) -> (r: Option<(Vec<Vec<u8>>, usize)>)
    requires
        i <= s@.len(),
    ensures
        match r {
            Some((v, j)) => sp_token_list(s@, i as int) == Some((v.deep_view(), j as int)) && i
                < j <= s@.len(),
            None => sp_token_list(s@, i as int) is None,
        },
{
    if i < s.len() && s[i] == LBRACKET {
        if i + 1 < s.len() && s[i + 1] == RBRACKET {
            let out: Vec<Vec<u8>> = Vec::new();
            proof {
                assert(out.deep_view() =~~= Seq::<Seq<u8>>::empty());
            }
            Some((out, i + 2))
        } else {
            parse_token_items_at(s, i + 1)
        }
    } else {
        None
    }
}

/// Reads one tensor's two lines, as `sp_tensor` describes.
fn parse_tensor_at(s: &Vec<u8>, i: usize) -> (r: Option<(TensorRecord, usize)>)
    requires
        i <= s@.len(),
    ensures
        match r {
            Some((t, j)) => sp_tensor(s@, i as int) == Some((t@, j as int)) && i < j <= s@.len(),
            None => sp_tensor(s@, i as int) is None,
        },
{
    match parse_usize_list_at(s, i) {
        None => None,
        Some((shape, j1)) => {
            if !(j1 < s.len() && s[j1] == LINE_FEED) {
                return None;
            }
            match parse_token_list_at(s, j1 + 1) {
                None => None,
                Some((values, j2)) => {
                    if !(j2 < s.len() && s[j2] == LINE_FEED) {
                        return None;
                    }
                    let t = TensorRecord { shape, values };
                    Some((t, j2 + 1))
                },
            }
        },
    }
}

/// Reads a persisted model from its text.  Parsing is exact: a parse
/// succeeds precisely on the canonical renderings of well-formed
/// records, and what it yields renders back to the given bytes letter
/// for letter.  Anything else is a format error.
pub fn parse_records(bytes: &Vec<u8>) -> (r: Result<ModelRecords, ModelError>)
    ensures
        r matches Ok(rec) ==> wf_records(rec@) && bytes@ == spec_render_records(rec@),
        r matches Err(e) ==> e == ModelError::Format,
        forall|rv: RecordsView|
            wf_records(rv) && bytes@ == #[trigger] spec_render_records(rv) ==> (r matches Ok(rec)
                && rec@ == rv),
{
    let r = parse_records_inner(bytes);
    proof {
        lemma_sound_records(bytes@);
        assert forall|rv: RecordsView|
            wf_records(rv) && bytes@ == #[trigger] spec_render_records(rv) implies (
        match r {
            Some(rec) => rec@ == rv,
            None => false,
        }) by {
            lemma_comp_records(bytes@, rv);
        }
    }
    match r {
        Some(rec) => Ok(rec),
        None => Err(ModelError::Format),
    }
}

/// Reads the four tensors and requires the text to end with them.
fn parse_records_inner(bytes: &Vec<u8>) -> (r: Option<ModelRecords>)
    ensures
        match r {
            Some(rec) => sp_records(bytes@) == Some(rec@),
            None => sp_records(bytes@) is None,
        },
{
    let t1 = parse_tensor_at(bytes, 0);
    match t1 {
        None => None,
        Some((weights1, i1)) => match parse_tensor_at(bytes, i1) {
            None => None,
            Some((weights2, i2)) => match parse_tensor_at(bytes, i2) {
                None => None,
                Some((biases1, i3)) => match parse_tensor_at(bytes, i3) {
                    None => None,
                    Some((biases2, i4)) => {
                        if i4 == bytes.len() {
                            Some(ModelRecords { weights1, weights2, biases1, biases2 })
                        } else {
                            None
                        }
                    },
                },
            },
        },
    }
}

/// Renders a model's persisted text.  The text is a function of the
/// records alone, so saving the same model again yields identical bytes.
pub fn render_records(rec: &ModelRecords) -> (out: Vec<u8>)
    ensures
        out@ == spec_render_records(rec@),
{
    let mut out: Vec<u8> = Vec::new();
    push_tensor(&mut out, &rec.weights1);
    push_tensor(&mut out, &rec.weights2);
    push_tensor(&mut out, &rec.biases1);
    push_tensor(&mut out, &rec.biases2);
    proof {
        assert(out@ =~= spec_render_records(rec@));
    }
    out
}

} // verus!
