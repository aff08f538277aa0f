//! The functional model of the parser: one spec function per grammar
//! production, over the cursor state (remaining input and current position).
//! Each executable parsing routine is proved to return exactly what its
//! production here says.

use vstd::prelude::*;
use crate::value::SpecValue;

verus! {

/// The cursor: the remaining unconsumed input and the 1-based position used
/// for diagnostics.
pub struct SpecCursor {
    pub rem: Seq<char>,
    pub row: int,
    pub col: int,
}

/// A parse error: where the grammar violation was detected, and its
/// description.
pub struct SpecError {
    pub row: int,
    pub col: int,
    pub desc: Seq<char>,
}

/// The outcome of one production: a result with the cursor left just past
/// the consumed text, or an error.
pub enum SpecOut<T> {
    Done { v: T, cur: SpecCursor },
    Fail { e: SpecError },
}

/// Adding with saturation at the largest pointer-sized value; positions
/// never move past it.
pub open spec fn sat_add(x: int, n: int) -> int {
    if x + n < usize::MAX {
        x + n
    } else {
        usize::MAX as int
    }
}

/// The cursor after consuming `n` characters one by one: the column grows by
/// one per character, the row is untouched.
pub open spec fn cur_adv(c: SpecCursor, n: int) -> SpecCursor {
    SpecCursor { rem: c.rem.skip(n), row: c.row, col: sat_add(c.col, n) }
}

/// Whitespace that moves the column: space, tab, form feed.
pub open spec fn is_blank(ch: char) -> bool {
    ch == ' ' || ch == '\t' || ch == '\x0C'
}

/// Whitespace that starts a new row: line feed, carriage return.
pub open spec fn is_newline(ch: char) -> bool {
    ch == '\n' || ch == '\r'
}

/// Skipping the maximal leading run of whitespace, tracking the position:
/// a blank moves the column by one; a newline moves to column 1 of the next
/// row.
pub open spec fn spec_skip_ws(c: SpecCursor) -> SpecCursor
    decreases c.rem.len(),
{
    if c.rem.len() > 0 && is_blank(c.rem[0]) {
        spec_skip_ws(SpecCursor { rem: c.rem.skip(1), row: c.row, col: sat_add(c.col, 1) })
    } else if c.rem.len() > 0 && is_newline(c.rem[0]) {
        spec_skip_ws(SpecCursor { rem: c.rem.skip(1), row: sat_add(c.row, 1), col: 1 })
    } else {
        c
    }
}

/// Matching a fixed literal text. Consuming a literal does not move the
/// tracked position; only whitespace-skipping and single-character
/// consumption do.
pub open spec fn spec_literal(c: SpecCursor, lit: Seq<char>) -> SpecOut<()> {
    if c.rem.len() < lit.len() {
        SpecOut::Fail {
            e: SpecError {
                row: c.row,
                col: c.col,
                desc: "literal '"@ + c.rem + "' expect '"@ + lit + "'"@,
            },
        }
    } else if c.rem.subrange(0, lit.len() as int) == lit {
        SpecOut::Done {
            v: (),
            cur: SpecCursor { rem: c.rem.skip(lit.len() as int), row: c.row, col: c.col },
        }
    } else {
        SpecOut::Fail {
            e: SpecError { row: c.row, col: c.col, desc: "literal not eq "@ + lit },
        }
    }
}

/// A decimal digit.
pub open spec fn is_digit(ch: char) -> bool {
    48 <= ch as u32 && ch as u32 <= 57
}

/// The numeric value of a digit character.
pub open spec fn digit_val(ch: char) -> int {
    ch as u32 - 48
}

/// The first index at or after `i` that does not hold a digit.
pub open spec fn digits_end(s: Seq<char>, i: int) -> int
    decreases s.len() - i,
{
    if 0 <= i < s.len() && is_digit(s[i]) {
        digits_end(s, i + 1)
    } else {
        i
    }
}

/// `digits_end` stays between its start and the end of the text, everything
/// before it is a digit, and it stops at the first non-digit.
pub proof fn lemma_digits_end(s: Seq<char>, i: int)
    requires
        0 <= i <= s.len(),
    ensures
        i <= digits_end(s, i) <= s.len(),
        forall|j: int| i <= j < digits_end(s, i) ==> is_digit(s[j]),
        digits_end(s, i) < s.len() ==> !is_digit(s[digits_end(s, i)]),
    decreases s.len() - i,
{
    if i < s.len() && is_digit(s[i]) {
        lemma_digits_end(s, i + 1);
    }
}

/// How many characters a leading minus sign takes.
pub open spec fn num_sign(t: Seq<char>) -> int {
    if t.len() > 0 && t[0] == '-' {
        1
    } else {
        0
    }
}

/// End of the integer part: a single `0`, or a maximal digit run; nothing if
/// the input ended.
pub open spec fn num_int_end(t: Seq<char>) -> int {
    let i = num_sign(t);
    if i >= t.len() {
        i
    } else if t[i] as u32 == 48 {
        i + 1
    } else {
        digits_end(t, i)
    }
}

/// End of the fractional part: a dot followed by a maximal digit run, which
/// may be empty.
pub open spec fn num_frac_end(t: Seq<char>) -> int {
    let i = num_int_end(t);
    if i < t.len() && t[i] == '.' {
        digits_end(t, i + 1)
    } else {
        i
    }
}

/// Whether an exponent marker (or a stray sign taken for one) follows the
/// fractional part.
pub open spec fn num_has_marker(t: Seq<char>) -> bool {
    let i = num_frac_end(t);
    i < t.len() && (t[i] == 'e' || t[i] == 'E' || t[i] == '+' || t[i] == '-')
}

/// End of the number token: past the exponent digits, or past any trailing
/// digit run when no marker is present.
pub open spec fn num_end(t: Seq<char>) -> int {
    let i = num_frac_end(t);
    if num_has_marker(t) {
        digits_end(t, i + 1)
    } else {
        digits_end(t, i)
    }
}

/// Whether the scanned token converts to a number: the integer part must
/// hold at least one digit, and an exponent marker must be a real `e`/`E`
/// followed by at least one digit.
pub open spec fn num_valid(t: Seq<char>) -> bool {
    &&& num_sign(t) < t.len() && is_digit(t[num_sign(t)])
    &&& num_has_marker(t) ==> {
        let i = num_frac_end(t);
        (t[i] == 'e' || t[i] == 'E') && digits_end(t, i + 1) > i + 1
    }
}

/// The digit values of `t[i..j)`.
pub open spec fn digs(t: Seq<char>, i: int, j: int) -> Seq<u8> {
    Seq::new(if j >= i { (j - i) as nat } else { 0 }, |k: int| digit_val(t[i + k]) as u8)
}

/// The value of the digit run `t[i..j)` accumulated left to right onto
/// `acc`, no longer growing once the accumulator reaches a billion; an
/// exponent beyond that bound is far outside any representable magnitude and
/// is held at the cap.
pub open spec fn digits_val(t: Seq<char>, i: int, j: int, acc: int) -> int
    decreases j - i,
{
    if i >= j {
        acc
    } else {
        digits_val(t, i + 1, j, if acc >= 1000000000 { acc } else { acc * 10 + digit_val(t[i]) })
    }
}

/// The number of leading zero digits.
pub open spec fn lead_zeros(d: Seq<u8>) -> int
    decreases d.len(),
{
    if d.len() > 0 && d[0] == 0 {
        1 + lead_zeros(d.drop_first())
    } else {
        0
    }
}

/// The number of trailing zero digits.
pub open spec fn trail_zeros(d: Seq<u8>) -> int
    decreases d.len(),
{
    if d.len() > 0 && d.last() == 0 {
        1 + trail_zeros(d.drop_last())
    } else {
        0
    }
}

/// `lead_zeros` is the index of the first non-zero digit, or the length.
pub proof fn lemma_lead_zeros(d: Seq<u8>)
    ensures
        0 <= lead_zeros(d) <= d.len(),
        forall|i: int| 0 <= i < lead_zeros(d) ==> d[i] == 0,
        lead_zeros(d) < d.len() ==> d[lead_zeros(d)] != 0,
    decreases d.len(),
{
    if d.len() > 0 && d[0] == 0 {
        lemma_lead_zeros(d.drop_first());
        assert(forall|i: int| 0 <= i < d.len() - 1 ==> d.drop_first()[i] == d[i + 1]);
        assert forall|i: int| 0 <= i < lead_zeros(d) implies d[i] == 0 by {
            if i > 0 {
                assert(d.drop_first()[i - 1] == 0);
            }
        }
    }
}

/// `trail_zeros` counts exactly the zero digits at the end.
pub proof fn lemma_trail_zeros(d: Seq<u8>)
    ensures
        0 <= trail_zeros(d) <= d.len(),
        forall|i: int| d.len() - trail_zeros(d) <= i < d.len() ==> d[i] == 0,
        trail_zeros(d) < d.len() ==> d[d.len() - trail_zeros(d) - 1] != 0,
    decreases d.len(),
{
    if d.len() > 0 && d.last() == 0 {
        lemma_trail_zeros(d.drop_last());
        assert(forall|i: int| 0 <= i < d.len() - 1 ==> d.drop_last()[i] == d[i]);
    }
}

/// The canonical number a scanned token denotes: the significand digits `d`
/// (integer digits followed by fraction digits) stripped of leading and
/// trailing zeros, with the exponent placing the decimal point after the
/// first kept digit; `m` is the count of integer-part digits and `expv` the
/// explicit exponent. An all-zero significand is canonical zero.
pub open spec fn canon_num(neg: bool, d: Seq<u8>, m: int, expv: int) -> SpecValue {
    let l = lead_zeros(d);
    if l == d.len() {
        SpecValue::Num { negative: false, digits: Seq::empty(), exponent: 0 }
    } else {
        SpecValue::Num {
            negative: neg,
            digits: d.subrange(l, d.len() - trail_zeros(d)),
            exponent: m - 1 - l + expv,
        }
    }
}

/// The significand digits of a token: the integer digits, then the
/// fraction digits. When neither a fraction nor an exponent marker follows
/// a lone `0`, the trailing digit run belongs to the integer part, so `010`
/// denotes ten.
pub open spec fn num_mantissa(t: Seq<char>) -> Seq<u8> {
    let i = num_int_end(t);
    if i < t.len() && t[i] == '.' {
        digs(t, num_sign(t), i) + digs(t, i + 1, num_frac_end(t))
    } else if num_has_marker(t) {
        digs(t, num_sign(t), i)
    } else {
        digs(t, num_sign(t), num_end(t))
    }
}

/// How many of the significand digits sit before the decimal point.
pub open spec fn num_int_digits(t: Seq<char>) -> int {
    let i = num_int_end(t);
    if (i < t.len() && t[i] == '.') || num_has_marker(t) {
        i - num_sign(t)
    } else {
        num_end(t) - num_sign(t)
    }
}

/// The explicit exponent value of a token, zero when no `e`/`E` is present.
pub open spec fn num_expv(t: Seq<char>) -> int {
    let i = num_frac_end(t);
    if num_has_marker(t) && (t[i] == 'e' || t[i] == 'E') {
        digits_val(t, i + 1, num_end(t), 0)
    } else {
        0
    }
}

/// The number value a valid token denotes.
pub open spec fn num_value(t: Seq<char>) -> SpecValue {
    canon_num(num_sign(t) == 1, num_mantissa(t), num_int_digits(t), num_expv(t))
}

/// The description of a failed number conversion, naming the token.
pub open spec fn num_err_desc(tok: Seq<char>) -> Seq<char> {
    "'"@ + tok + "' to number invalid float literal error"@
}

/// The number production: an optional sign, an integer part that must start
/// with a digit, an optional fraction after a dot, and an optional exponent.
/// A token whose integer part is missing or whose exponent is malformed (a
/// stray sign, or an `e` with no digits) fails conversion.
pub open spec fn spec_number(c: SpecCursor) -> SpecOut<SpecValue> {
    let t = c.rem;
    if num_sign(t) < t.len() && !is_digit(t[num_sign(t)]) {
        SpecOut::Fail {
            e: SpecError {
                row: c.row,
                col: sat_add(c.col, num_sign(t)),
                desc: "number integer expect '0..9'"@,
            },
        }
    } else {
        let end = num_end(t);
        if num_valid(t) {
            SpecOut::Done { v: num_value(t), cur: cur_adv(c, end) }
        } else {
            SpecOut::Fail {
                e: SpecError {
                    row: c.row,
                    col: sat_add(c.col, end),
                    desc: num_err_desc(t.subrange(0, end)),
                },
            }
        }
    }
}

/// The six supported escape characters.
pub open spec fn is_escape(ch: char) -> bool {
    ch == '"' || ch == '\\' || ch == '/' || ch == 'n' || ch == 'r' || ch == 't'
}

/// What an escape character stands for.
pub open spec fn escape_val(ch: char) -> char {
    if ch == 'n' {
        '\n'
    } else if ch == 'r' {
        '\r'
    } else if ch == 't' {
        '\t'
    } else {
        ch
    }
}

/// The body of a string, after the opening quote: plain characters and
/// supported escapes are accumulated; the closing quote ends it. Reaching
/// the end of input, or an unsupported escape, fails with the
/// missing-closing-quote error at the point the scan stopped.
pub open spec fn spec_string_body(c: SpecCursor, acc: Seq<char>) -> SpecOut<Seq<char>>
    decreases c.rem.len(),
{
    if c.rem.len() == 0 {
        SpecOut::Fail {
            e: SpecError { row: c.row, col: c.col, desc: "string end char expect '\"'"@ },
        }
    } else if c.rem[0] == '"' {
        SpecOut::Done { v: acc, cur: cur_adv(c, 1) }
    } else if c.rem[0] == '\\' {
        if c.rem.len() >= 2 && is_escape(c.rem[1]) {
            spec_string_body(cur_adv(c, 2), acc.push(escape_val(c.rem[1])))
        } else {
            SpecOut::Fail {
                e: SpecError {
                    row: c.row,
                    col: sat_add(c.col, 1),
                    desc: "string end char expect '\"'"@,
                },
            }
        }
    } else {
        spec_string_body(cur_adv(c, 1), acc.push(c.rem[0]))
    }
}

/// The string production: an opening quote, the body, a closing quote.
pub open spec fn spec_string(c: SpecCursor) -> SpecOut<Seq<char>> {
    if c.rem.len() == 0 || c.rem[0] != '"' {
        SpecOut::Fail {
            e: SpecError { row: c.row, col: c.col, desc: "string start char expect '\"'"@ },
        }
    } else {
        spec_string_body(cur_adv(c, 1), Seq::empty())
    }
}

/// A successful string body never grows the remaining input.
pub proof fn lemma_string_body_le(c: SpecCursor, acc: Seq<char>)
    ensures
        spec_string_body(c, acc) matches SpecOut::Done { v: _, cur } ==> cur.rem.len()
            < c.rem.len(),
    decreases c.rem.len(),
{
    if c.rem.len() == 0 {
    } else if c.rem[0] == '"' {
    } else if c.rem[0] == '\\' {
        if c.rem.len() >= 2 && is_escape(c.rem[1]) {
            lemma_string_body_le(cur_adv(c, 2), acc.push(escape_val(c.rem[1])));
        }
    } else {
        lemma_string_body_le(cur_adv(c, 1), acc.push(c.rem[0]));
    }
}

/// A successful string strictly shrinks the remaining input.
pub proof fn lemma_string_le(c: SpecCursor)
    ensures
        spec_string(c) matches SpecOut::Done { v: _, cur } ==> cur.rem.len() < c.rem.len(),
{
    if !(c.rem.len() == 0 || c.rem[0] != '"') {
        lemma_string_body_le(cur_adv(c, 1), Seq::empty());
    }
}

/// Skipping whitespace never grows the remaining input.
pub proof fn lemma_skip_ws_le(c: SpecCursor)
    ensures
        spec_skip_ws(c).rem.len() <= c.rem.len(),
    decreases c.rem.len(),
{
    if c.rem.len() > 0 && is_blank(c.rem[0]) {
        lemma_skip_ws_le(SpecCursor { rem: c.rem.skip(1), row: c.row, col: sat_add(c.col, 1) });
    } else if c.rem.len() > 0 && is_newline(c.rem[0]) {
        lemma_skip_ws_le(SpecCursor { rem: c.rem.skip(1), row: sat_add(c.row, 1), col: 1 });
    }
}

/// The number production never grows the remaining input.
pub proof fn lemma_number_le(c: SpecCursor)
    ensures
        spec_number(c) matches SpecOut::Done { v: _, cur } ==> cur.rem.len() <= c.rem.len(),
{
    let t = c.rem;
    if !(num_sign(t) < t.len() && !is_digit(t[num_sign(t)])) && num_valid(t) {
        lemma_digits_end(t, num_sign(t));
        lemma_num_marks(t);
    }
}

/// The scan marks of a number token are ordered and bounded by the input.
pub proof fn lemma_num_marks(t: Seq<char>)
    ensures
        0 <= num_sign(t) <= num_int_end(t) <= num_frac_end(t) <= num_end(t) <= t.len()
            || num_frac_end(t) + 1 <= num_end(t) <= t.len(),
        0 <= num_sign(t),
        num_sign(t) <= num_int_end(t),
        num_int_end(t) <= num_frac_end(t),
        num_frac_end(t) <= num_end(t),
        num_end(t) <= t.len(),
{
    let i0 = num_sign(t);
    if i0 < t.len() {
        lemma_digits_end(t, i0);
    }
    let i1 = num_int_end(t);
    if i1 < t.len() && t[i1] == '.' {
        lemma_digits_end(t, i1 + 1);
    }
    let i2 = num_frac_end(t);
    if num_has_marker(t) {
        lemma_digits_end(t, i2 + 1);
    } else {
        if i2 <= t.len() {
            lemma_digits_end(t, i2);
        }
    }
}

/// Consuming `a` then `b` characters is consuming `a + b`.
pub proof fn lemma_cur_adv_compose(c: SpecCursor, a: int, b: int)
    requires
        0 <= a,
        0 <= b,
        a + b <= c.rem.len(),
    ensures
        cur_adv(cur_adv(c, a), b) == cur_adv(c, a + b),
{
    assert(c.rem.skip(a).skip(b) =~= c.rem.skip(a + b));
}

/// The next character, if any input remains.
pub open spec fn spec_peek(c: SpecCursor) -> Option<char> {
    if c.rem.len() > 0 {
        Some(c.rem[0])
    } else {
        None
    }
}

/// The map after inserting the pairs of `q` into `m`, first to last.
pub open spec fn insert_all(
    m: Map<Seq<char>, SpecValue>,
    q: Seq<(Seq<char>, SpecValue)>,
) -> Map<Seq<char>, SpecValue>
    decreases q.len(),
{
    if q.len() == 0 {
        m
    } else {
        insert_all(m.insert(q[0].0, q[0].1), q.drop_first())
    }
}

/// Inserting pairs first to last and last to first build the same map.
pub proof fn lemma_insert_all_push(
    m: Map<Seq<char>, SpecValue>,
    q: Seq<(Seq<char>, SpecValue)>,
    kv: (Seq<char>, SpecValue),
)
    ensures
        insert_all(m, q.push(kv)) == insert_all(m, q).insert(kv.0, kv.1),
    decreases q.len(),
{
    assert(insert_all(m, q.push(kv)) == insert_all(
        m.insert(q.push(kv)[0].0, q.push(kv)[0].1),
        q.push(kv).drop_first(),
    ));
    if q.len() == 0 {
        assert(q.push(kv)[0] == kv);
        assert(q.push(kv).drop_first() =~= Seq::<(Seq<char>, SpecValue)>::empty());
        assert(insert_all(m.insert(kv.0, kv.1), q.push(kv).drop_first()) == m.insert(
            kv.0,
            kv.1,
        ));
        assert(insert_all(m, q) == m);
    } else {
        assert(q.push(kv)[0] == q[0]);
        assert(q.push(kv).drop_first() =~= q.drop_first().push(kv));
        lemma_insert_all_push(m.insert(q[0].0, q[0].1), q.drop_first(), kv);
        assert(insert_all(m, q) == insert_all(m.insert(q[0].0, q[0].1), q.drop_first()));
    }
}

/// `pairs_map` is `insert_all` started from the empty map.
pub proof fn lemma_pairs_map_insert_all(q: Seq<(Seq<char>, SpecValue)>)
    ensures
        pairs_map(q) == insert_all(Map::empty(), q),
    decreases q.len(),
{
    if q.len() > 0 {
        lemma_pairs_map_insert_all(q.drop_last());
        lemma_insert_all_push(Map::empty(), q.drop_last(), q.last());
        assert(q.drop_last().push(q.last()) =~= q);
    }
}

/// The map a sequence of parsed members describes, a later member winning
/// over an earlier one with the same key.
pub open spec fn pairs_map(s: Seq<(Seq<char>, SpecValue)>) -> Map<Seq<char>, SpecValue>
    decreases s.len(),
{
    if s.len() == 0 {
        Map::empty()
    } else {
        pairs_map(s.drop_last()).insert(s.last().0, s.last().1)
    }
}

/// An unreachable outcome, returned only on branches that the productions
/// can never take (they would require consuming to grow the input).
pub open spec fn dead_end<T>() -> SpecOut<T> {
    SpecOut::Fail { e: SpecError { row: 0, col: 0, desc: Seq::empty() } }
}

/// The value production: dispatch on the next character; `n`, `f`, `t` try
/// the fixed literals, a quote a string, a bracket an array, a brace an
/// object, and anything else falls through to the number production.
pub open spec fn spec_value(c: SpecCursor) -> SpecOut<SpecValue>
    decreases c.rem.len(), 1int,
{
    if c.rem.len() > 0 && c.rem[0] == 'n' {
        lift_literal(spec_literal(c, "null"@), SpecValue::Null)
    } else if c.rem.len() > 0 && c.rem[0] == 'f' {
        lift_literal(spec_literal(c, "false"@), SpecValue::False)
    } else if c.rem.len() > 0 && c.rem[0] == 't' {
        lift_literal(spec_literal(c, "true"@), SpecValue::True)
    } else if c.rem.len() > 0 && c.rem[0] == '"' {
        match spec_string(c) {
            SpecOut::Done { v, cur } => SpecOut::Done { v: SpecValue::Text { s: v }, cur },
            SpecOut::Fail { e } => SpecOut::Fail { e },
        }
    } else if c.rem.len() > 0 && c.rem[0] == '[' {
        spec_array(c)
    } else if c.rem.len() > 0 && c.rem[0] == '{' {
        spec_object(c)
    } else {
        spec_number(c)
    }
}

/// A literal outcome carrying the fixed value it stands for.
pub open spec fn lift_literal(o: SpecOut<()>, v: SpecValue) -> SpecOut<SpecValue> {
    match o {
        SpecOut::Done { v: _, cur } => SpecOut::Done { v, cur },
        SpecOut::Fail { e } => SpecOut::Fail { e },
    }
}

/// The element production: whitespace, a value, whitespace.
pub open spec fn spec_element(c: SpecCursor) -> SpecOut<SpecValue>
    decreases c.rem.len(), 2int,
{
    let c1 = spec_skip_ws(c);
    if c1.rem.len() <= c.rem.len() {
        match spec_value(c1) {
            SpecOut::Done { v, cur } => SpecOut::Done { v, cur: spec_skip_ws(cur) },
            SpecOut::Fail { e } => SpecOut::Fail { e },
        }
    } else {
        dead_end()
    }
}

/// The elements production: one element, then further elements after each
/// comma.
pub open spec fn spec_elements(c: SpecCursor) -> SpecOut<Seq<SpecValue>>
    decreases c.rem.len(), 4int,
{
    match spec_element(c) {
        SpecOut::Fail { e } => SpecOut::Fail { e },
        SpecOut::Done { v, cur } => {
            if cur.rem.len() > 0 && cur.rem[0] == ',' {
                let c2 = cur_adv(cur, 1);
                if c2.rem.len() < c.rem.len() {
                    match spec_elements(c2) {
                        SpecOut::Fail { e } => SpecOut::Fail { e },
                        SpecOut::Done { v: vs, cur: c3 } => SpecOut::Done {
                            v: seq![v] + vs,
                            cur: c3,
                        },
                    }
                } else {
                    dead_end()
                }
            } else {
                SpecOut::Done { v: seq![v], cur }
            }
        },
    }
}

/// The array production: the opening bracket (consumed blindly, as the
/// dispatcher guarantees it), whitespace, optionally elements, and the
/// closing bracket, whose absence is an error at the point reached.
pub open spec fn spec_array(c: SpecCursor) -> SpecOut<SpecValue>
    decreases c.rem.len(), 0int,
{
    if c.rem.len() == 0 {
        SpecOut::Fail {
            e: SpecError { row: c.row, col: c.col, desc: num_err_desc(Seq::empty()) },
        }
    } else {
        let c2 = spec_skip_ws(cur_adv(c, 1));
        if c2.rem.len() > 0 && c2.rem[0] == ']' {
            SpecOut::Done { v: SpecValue::Arr { elems: Seq::empty() }, cur: cur_adv(c2, 1) }
        } else if c2.rem.len() < c.rem.len() {
            match spec_elements(c2) {
                SpecOut::Fail { e } => SpecOut::Fail { e },
                SpecOut::Done { v, cur } => {
                    if cur.rem.len() > 0 && cur.rem[0] == ']' {
                        SpecOut::Done { v: SpecValue::Arr { elems: v }, cur: cur_adv(cur, 1) }
                    } else {
                        SpecOut::Fail {
                            e: SpecError {
                                row: cur.row,
                                col: cur.col,
                                desc: "array end char expect ']'"@,
                            },
                        }
                    }
                },
            }
        } else {
            dead_end()
        }
    }
}

/// The member production: whitespace, a string key, whitespace, a colon,
/// and the element it introduces.
pub open spec fn spec_member(c: SpecCursor) -> SpecOut<(Seq<char>, SpecValue)>
    decreases c.rem.len(), 3int,
{
    let c1 = spec_skip_ws(c);
    match spec_string(c1) {
        SpecOut::Fail { e } => SpecOut::Fail { e },
        SpecOut::Done { v: k, cur } => {
            let c3 = spec_skip_ws(cur);
            if c3.rem.len() > 0 && c3.rem[0] == ':' {
                let c4 = cur_adv(c3, 1);
                if c4.rem.len() <= c.rem.len() {
                    match spec_element(c4) {
                        SpecOut::Fail { e } => SpecOut::Fail { e },
                        SpecOut::Done { v, cur: c5 } => SpecOut::Done { v: (k, v), cur: c5 },
                    }
                } else {
                    dead_end()
                }
            } else {
                SpecOut::Fail {
                    e: SpecError { row: c3.row, col: c3.col, desc: "member expect ':'"@ },
                }
            }
        },
    }
}

/// The members production: one member, then further members after each
/// comma, kept in the order written.
pub open spec fn spec_members(c: SpecCursor) -> SpecOut<Seq<(Seq<char>, SpecValue)>>
    decreases c.rem.len(), 4int,
{
    match spec_member(c) {
        SpecOut::Fail { e } => SpecOut::Fail { e },
        SpecOut::Done { v: kv, cur } => {
            if cur.rem.len() > 0 && cur.rem[0] == ',' {
                let c2 = cur_adv(cur, 1);
                if c2.rem.len() < c.rem.len() {
                    match spec_members(c2) {
                        SpecOut::Fail { e } => SpecOut::Fail { e },
                        SpecOut::Done { v: kvs, cur: c3 } => SpecOut::Done {
                            v: seq![kv] + kvs,
                            cur: c3,
                        },
                    }
                } else {
                    dead_end()
                }
            } else {
                SpecOut::Done { v: seq![kv], cur }
            }
        },
    }
}

/// The object production: the opening brace, whitespace, optionally
/// members, and the closing brace, whose absence is an error at the point
/// reached. The object's model is the map the members describe, a later
/// member overriding an earlier one with the same key.
pub open spec fn spec_object(c: SpecCursor) -> SpecOut<SpecValue>
    decreases c.rem.len(), 0int,
{
    if c.rem.len() == 0 {
        SpecOut::Fail {
            e: SpecError { row: c.row, col: c.col, desc: "string start char expect '\"'"@ },
        }
    } else {
        let c2 = spec_skip_ws(cur_adv(c, 1));
        if c2.rem.len() > 0 && c2.rem[0] == '}' {
            SpecOut::Done {
                v: SpecValue::Obj { entries: Map::empty() },
                cur: cur_adv(c2, 1),
            }
        } else if c2.rem.len() < c.rem.len() {
            match spec_members(c2) {
                SpecOut::Fail { e } => SpecOut::Fail { e },
                SpecOut::Done { v, cur } => {
                    if cur.rem.len() > 0 && cur.rem[0] == '}' {
                        SpecOut::Done {
                            v: SpecValue::Obj { entries: pairs_map(v) },
                            cur: cur_adv(cur, 1),
                        }
                    } else {
                        SpecOut::Fail {
                            e: SpecError {
                                row: cur.row,
                                col: cur.col,
                                desc: "object end char expect '}'"@,
                            },
                        }
                    }
                },
            }
        } else {
            dead_end()
        }
    }
}

/// The whole text as one element: any unconsumed text left after it, other
/// than whitespace, is the trailing-input error, naming the remainder.
pub open spec fn spec_parse(text: Seq<char>) -> SpecOut<SpecValue> {
    match spec_element(SpecCursor { rem: text, row: 1, col: 1 }) {
        SpecOut::Fail { e } => SpecOut::Fail { e },
        SpecOut::Done { v, cur } => {
            if cur.rem.len() != 0 {
                SpecOut::Fail {
                    e: SpecError {
                        row: cur.row,
                        col: cur.col,
                        desc: "value not finished '"@ + cur.rem + "'"@,
                    },
                }
            } else {
                SpecOut::Done { v, cur }
            }
        },
    }
}

/// A successful value never grows the remaining input.
pub proof fn lemma_value_le(c: SpecCursor)
    ensures
        spec_value(c) matches SpecOut::Done { v: _, cur } ==> cur.rem.len() <= c.rem.len(),
    decreases c.rem.len(), 1int,
{
    lemma_string_le(c);
    lemma_number_le(c);
    if c.rem.len() > 0 && c.rem[0] == '[' {
        lemma_array_le(c);
    }
    if c.rem.len() > 0 && c.rem[0] == '{' {
        lemma_object_le(c);
    }
}

/// A successful element never grows the remaining input.
pub proof fn lemma_element_le(c: SpecCursor)
    ensures
        spec_element(c) matches SpecOut::Done { v: _, cur } ==> cur.rem.len() <= c.rem.len(),
    decreases c.rem.len(), 2int,
{
    let c1 = spec_skip_ws(c);
    lemma_skip_ws_le(c);
    lemma_value_le(c1);
    match spec_value(c1) {
        SpecOut::Done { v: _, cur } => lemma_skip_ws_le(cur),
        SpecOut::Fail { e: _ } => {},
    }
}

/// Successful elements never grow the remaining input.
pub proof fn lemma_elements_le(c: SpecCursor)
    ensures
        spec_elements(c) matches SpecOut::Done { v: _, cur } ==> cur.rem.len() <= c.rem.len(),
    decreases c.rem.len(), 4int,
{
    lemma_element_le(c);
    match spec_element(c) {
        SpecOut::Done { v: _, cur } => {
            if cur.rem.len() > 0 && cur.rem[0] == ',' {
                lemma_elements_le(cur_adv(cur, 1));
            }
        },
        SpecOut::Fail { e: _ } => {},
    }
}

/// A successful array never grows the remaining input.
pub proof fn lemma_array_le(c: SpecCursor)
    ensures
        spec_array(c) matches SpecOut::Done { v: _, cur } ==> cur.rem.len() <= c.rem.len(),
    decreases c.rem.len(), 0int,
{
    if c.rem.len() > 0 {
        lemma_skip_ws_le(cur_adv(c, 1));
        let c2 = spec_skip_ws(cur_adv(c, 1));
        if !(c2.rem.len() > 0 && c2.rem[0] == ']') && c2.rem.len() < c.rem.len() {
            lemma_elements_le(c2);
        }
    }
}

/// A successful member never grows the remaining input.
pub proof fn lemma_member_le(c: SpecCursor)
    ensures
        spec_member(c) matches SpecOut::Done { v: _, cur } ==> cur.rem.len() <= c.rem.len(),
    decreases c.rem.len(), 3int,
{
    let c1 = spec_skip_ws(c);
    lemma_skip_ws_le(c);
    lemma_string_le(c1);
    match spec_string(c1) {
        SpecOut::Done { v: _, cur } => {
            lemma_skip_ws_le(cur);
            let c3 = spec_skip_ws(cur);
            if c3.rem.len() > 0 && c3.rem[0] == ':' {
                lemma_element_le(cur_adv(c3, 1));
            }
        },
        SpecOut::Fail { e: _ } => {},
    }
}

/// Successful members never grow the remaining input.
pub proof fn lemma_members_le(c: SpecCursor)
    ensures
        spec_members(c) matches SpecOut::Done { v: _, cur } ==> cur.rem.len() <= c.rem.len(),
    decreases c.rem.len(), 4int,
{
    lemma_member_le(c);
    match spec_member(c) {
        SpecOut::Done { v: _, cur } => {
            if cur.rem.len() > 0 && cur.rem[0] == ',' {
                lemma_members_le(cur_adv(cur, 1));
            }
        },
        SpecOut::Fail { e: _ } => {},
    }
}

/// A successful object never grows the remaining input.
pub proof fn lemma_object_le(c: SpecCursor)
    ensures
        spec_object(c) matches SpecOut::Done { v: _, cur } ==> cur.rem.len() <= c.rem.len(),
    decreases c.rem.len(), 0int,
{
    if c.rem.len() > 0 {
        lemma_skip_ws_le(cur_adv(c, 1));
        let c2 = spec_skip_ws(cur_adv(c, 1));
        if !(c2.rem.len() > 0 && c2.rem[0] == '}') && c2.rem.len() < c.rem.len() {
            lemma_members_le(c2);
        }
    }
}

} // verus!
