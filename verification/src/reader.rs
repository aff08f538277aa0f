//! The reader over the input text and the recursive-descent parsing
//! routines, each proved against its production in the grammar model.

use vstd::prelude::*;
use vstd::string::StrSliceExecFns;
use vstd::string::StringExecFns;
use crate::grammar::SpecCursor;
use crate::grammar::SpecError;
use crate::grammar::SpecOut;
use crate::grammar::cur_adv;
use crate::grammar::canon_num;
use crate::grammar::digit_val;
use crate::grammar::digs;
use crate::grammar::digits_end;
use crate::grammar::digits_val;
use crate::grammar::escape_val;
use crate::grammar::is_digit;
use crate::grammar::lead_zeros;
use crate::grammar::lemma_cur_adv_compose;
use crate::grammar::lemma_digits_end;
use crate::grammar::lemma_lead_zeros;
use crate::grammar::lemma_trail_zeros;
use crate::grammar::num_end;
use crate::grammar::num_err_desc;
use crate::grammar::num_expv;
use crate::grammar::num_frac_end;
use crate::grammar::num_has_marker;
use crate::grammar::num_int_digits;
use crate::grammar::num_int_end;
use crate::grammar::lemma_num_marks;
use crate::grammar::num_mantissa;
use crate::grammar::num_sign;
use crate::grammar::num_valid;
use crate::grammar::num_value;
use crate::grammar::spec_number;
use crate::grammar::trail_zeros;
use crate::grammar::spec_literal;
use crate::grammar::spec_string;
use crate::grammar::spec_string_body;
use crate::grammar::spec_peek;
use crate::grammar::spec_skip_ws;
use crate::grammar::insert_all;
use crate::grammar::lemma_element_le;
use crate::grammar::lemma_member_le;
use crate::grammar::lemma_pairs_map_insert_all;
use crate::grammar::lemma_skip_ws_le;
use crate::grammar::lemma_string_le;
use crate::grammar::lift_literal;
use crate::grammar::pairs_map;
use crate::grammar::spec_array;
use crate::grammar::spec_element;
use crate::grammar::spec_elements;
use crate::grammar::spec_member;
use crate::grammar::spec_members;
use crate::grammar::spec_object;
use crate::grammar::spec_parse;
use crate::grammar::spec_value;
use crate::value::Number;
use crate::value::SpecValue;
use crate::value::elems_view;
use crate::value::lemma_elems_view;
use crate::value::entries_map;
use crate::value::key_unique;
use crate::value::object_insert;
use crate::value::value_string;
use crate::value::Value;
use crate::value::num_view;

verus! {

/// A grammar violation: its 1-based row and column, and a description.
#[derive(Debug)]
pub struct ParseError {
    pub row: usize,
    pub column: usize,
    pub desc: String,
}

/// Whether an error value carries exactly what the model says.
pub open spec fn err_eq(pe: &ParseError, e: SpecError) -> bool {
    pe.row == e.row && pe.column == e.col && pe.desc@ == e.desc
}

/// How the outcome of a whole elements production relates to the outcome
/// from partway through it, once the values in `p` are already parsed.
pub open spec fn elems_rest(
    o: SpecOut<Seq<SpecValue>>,
    p: Seq<SpecValue>,
    o2: SpecOut<Seq<SpecValue>>,
) -> bool {
    match o {
        SpecOut::Done { v, cur } => o2 matches SpecOut::Done { v: v2, cur: cur2 } && v == p + v2
            && cur == cur2,
        SpecOut::Fail { e } => o2 matches SpecOut::Fail { e: e2 } && e == e2,
    }
}

/// How the outcome of a whole members production relates to the outcome
/// from partway through it, once the members behind the map `m` are already
/// parsed and inserted.
pub open spec fn members_rest(
    o: SpecOut<Seq<(Seq<char>, SpecValue)>>,
    m: Map<Seq<char>, SpecValue>,
    o2: SpecOut<Seq<(Seq<char>, SpecValue)>>,
) -> bool {
    match o {
        SpecOut::Done { v, cur } => o2 matches SpecOut::Done { v: v2, cur: cur2 } && insert_all(
            m,
            v2,
        ) == pairs_map(v) && cur == cur2,
        SpecOut::Fail { e } => o2 matches SpecOut::Fail { e: e2 } && e == e2,
    }
}

/// Whether two cursors agree field by field.
pub open spec fn cur_eq(a: SpecCursor, b: SpecCursor) -> bool {
    a.rem == b.rem && a.row == b.row && a.col == b.col
}

/// Relies on `String::push`: appends exactly the one character at the end.
pub assume_specification[ std::string::String::push ](s: &mut std::string::String, c: char)
    ensures
        final(s)@ == old(s)@.push(c),
;

/// The text of `v[from..to)` as an owned string, for diagnostics.
fn seg_string(v: &Vec<char>, from: usize, to: usize) -> (r: String)
    requires
        from <= to <= v@.len(),
    ensures
        r@ == v@.subrange(from as int, to as int),
{
    let mut s = String::new();
    let mut i: usize = from;
    while i < to
        invariant
            from <= i <= to <= v@.len(),
            s@ == v@.subrange(from as int, i as int),
        decreases to - i,
    {
        s.push(v[i]);
        proof {
            assert(v@.subrange(from as int, i + 1 as int) =~= v@.subrange(
                from as int,
                i as int,
            ).push(v@[i as int]));
        }
        i = i + 1;
    }
    s
}

/// Where the parts of one scanned number token end.
struct NumMarks {
    pub sign: usize,
    pub int_end: usize,
    pub frac_end: usize,
    pub has_marker: bool,
    pub marker: char,
    pub expd: usize,
    pub end: usize,
}

/// The digit values of `v[from..to)`, a run of digit characters.
#[verifier::loop_isolation(false)]
fn digit_values(
    v: &Vec<char>,
    from: usize,
    to: usize,
    Ghost(t): Ghost<Seq<char>>,
    Ghost(p0): Ghost<int>,
) -> (r: Vec<u8>)
    requires
        0 <= p0 <= from <= to <= v@.len(),
        t == v@.skip(p0),
        forall|j: int| from - p0 <= j < to - p0 ==> is_digit(#[trigger] t[j]),
    ensures
        r@ == digs(t, from - p0, to - p0),
{
    let mut r: Vec<u8> = Vec::new();
    let mut i: usize = from;
    while i < to
        invariant
            from <= i <= to,
            r@.len() == i - from,
            forall|k: int| 0 <= k < r@.len() ==> r@[k] == digit_val(t[from - p0 + k]) as u8,
        decreases to - i,
    {
        proof {
            assert(t[i - p0] == v@[i as int]);
            assert(is_digit(t[i - p0]));
        }
        let u = v[i] as u32;
        r.push((u - 48) as u8);
        i = i + 1;
    }
    proof {
        assert(r@ =~= digs(t, from - p0, to - p0));
    }
    r
}

/// The two digit runs joined, integer digits then fraction digits.
fn concat_digits(a: Vec<u8>, b: Vec<u8>) -> (r: Vec<u8>)
    ensures
        r@ == a@ + b@,
{
    let ghost a0 = a@;
    let mut r = a;
    let mut i: usize = 0;
    while i < b.len()
        invariant
            0 <= i <= b@.len(),
            r@ == a0 + b@.subrange(0, i as int),
        decreases b@.len() - i,
    {
        r.push(b[i]);
        proof {
            assert(a0 + b@.subrange(0, i + 1 as int) =~= (a0 + b@.subrange(0, i as int)).push(
                b@[i as int],
            ));
        }
        i = i + 1;
    }
    proof {
        assert(b@.subrange(0, b@.len() as int) =~= b@);
    }
    r
}

/// The value of the digit run `v[from..to)`, held at the cap once it
/// reaches a billion, exactly as the model accumulates it.
#[verifier::loop_isolation(false)]
fn exp_value(
    v: &Vec<char>,
    from: usize,
    to: usize,
    Ghost(t): Ghost<Seq<char>>,
    Ghost(p0): Ghost<int>,
) -> (r: u64)
    requires
        0 <= p0 <= from <= to <= v@.len(),
        t == v@.skip(p0),
        forall|j: int| from - p0 <= j < to - p0 ==> is_digit(#[trigger] t[j]),
    ensures
        r as int == digits_val(t, from - p0, to - p0, 0),
        r < 10000000000,
{
    let mut ev: u64 = 0;
    let mut i: usize = from;
    while i < to
        invariant
            from <= i <= to,
            ev < 10000000000,
            digits_val(t, i - p0, to - p0, ev as int) == digits_val(t, from - p0, to - p0, 0),
        decreases to - i,
    {
        proof {
            assert(t[i - p0] == v@[i as int]);
            assert(is_digit(t[i - p0]));
            assert(digits_val(t, i - p0, to - p0, ev as int) == digits_val(
                t,
                i + 1 - p0,
                to - p0,
                if ev >= 1000000000 {
                    ev as int
                } else {
                    ev as int * 10 + digit_val(t[i - p0])
                },
            ));
        }
        let u = v[i] as u32;
        if ev < 1000000000 {
            ev = ev * 10 + ((u - 48) as u64);
        }
        i = i + 1;
    }
    ev
}

/// The canonical number with significand digits `dv`, of which the first
/// `m` sit before the decimal point, scaled by ten to the `ev`: leading and
/// trailing zeros are stripped and an all-zero significand is canonical
/// zero.
#[verifier::loop_isolation(false)]
fn canonical_number(dv: Vec<u8>, neg: bool, m: usize, ev: u64) -> (n: Number)
    requires
        forall|k: int| 0 <= k < dv@.len() ==> dv@[k] <= 9,
        ev < 10000000000,
    ensures
        n.wf(),
        num_view(&n) == canon_num(neg, dv@, m as int, ev as int),
{
    let mut l: usize = 0;
    while l < dv.len() && dv[l] == 0
        invariant
            0 <= l <= dv@.len(),
            forall|j: int| 0 <= j < l ==> dv@[j] == 0,
        decreases dv@.len() - l,
    {
        l = l + 1;
    }
    proof {
        lemma_lead_zeros(dv@);
        assert(l as int == lead_zeros(dv@));
    }
    if l == dv.len() {
        let zero: Vec<u8> = Vec::new();
        let n = Number { negative: false, digits: zero, exponent: 0 };
        proof {
            assert(n.digits@ =~= Seq::<u8>::empty());
        }
        return n;
    }
    let mut rz: usize = 0;
    while rz < dv.len() && dv[dv.len() - 1 - rz] == 0
        invariant
            0 <= rz <= dv@.len(),
            forall|j: int| dv@.len() - rz <= j < dv@.len() ==> dv@[j] == 0,
        decreases dv@.len() - rz,
    {
        rz = rz + 1;
    }
    proof {
        lemma_trail_zeros(dv@);
        assert(rz as int == trail_zeros(dv@));
        assert(l + rz < dv@.len());
    }
    let mut digits2: Vec<u8> = Vec::new();
    let mut i: usize = l;
    while i < dv.len() - rz
        invariant
            l <= i <= dv@.len() - rz,
            rz < dv@.len(),
            digits2@ == dv@.subrange(l as int, i as int),
        decreases dv@.len() - rz - i,
    {
        digits2.push(dv[i]);
        proof {
            assert(dv@.subrange(l as int, i + 1 as int) =~= dv@.subrange(
                l as int,
                i as int,
            ).push(dv@[i as int]));
        }
        i = i + 1;
    }
    let expo: i128 = (m as i128) - 1 - (l as i128) + (ev as i128);
    let n = Number { negative: neg, digits: digits2, exponent: expo };
    proof {
        assert(n.digits@.len() > 0);
        assert(n.digits@[0] == dv@[l as int]);
        assert(n.digits@[n.digits@.len() - 1] == dv@[dv@.len() - rz - 1]);
        assert(n.wf());
    }
    n
}

/// The reader: the full input text, the position reached in it, and the
/// row and column used for diagnostics.
pub struct Reader {
    pub origin: Vec<char>,
    pub pos: usize,
    pub row: usize,
    pub column: usize,
}

impl Reader {
    /// The full input text.
    pub open spec fn text(&self) -> Seq<char> {
        self.origin@
    }

    /// The cursor this reader is at.
    pub open spec fn st(&self) -> SpecCursor {
        SpecCursor {
            rem: self.origin@.skip(self.pos as int),
            row: self.row as int,
            col: self.column as int,
        }
    }

    /// The position never passes the end of the text.
    pub open spec fn wf(&self) -> bool {
        self.pos <= self.origin@.len()
    }

    /// A fresh reader over `c`, at its start, at row 1 and column 1.
    pub fn new(c: &str) -> (r: Reader)
        ensures
            r.wf(),
            r.text() == c@,
            cur_eq(r.st(), SpecCursor { rem: c@, row: 1, col: 1 }),
    {
        let n = c.unicode_len();
        let mut v: Vec<char> = Vec::new();
        let mut i: usize = 0;
        while i < n
            invariant
                i <= n,
                n == c@.len(),
                v@ == c@.subrange(0, i as int),
            decreases n - i,
        {
            let ch = c.get_char(i);
            v.push(ch);
            proof {
                assert(c@.subrange(0, i + 1 as int) =~= c@.subrange(0, i as int).push(
                    c@[i as int],
                ));
            }
            i = i + 1;
        }
        proof {
            assert(c@.subrange(0, n as int) =~= c@);
            assert(v@.skip(0) =~= v@);
        }
        Reader { origin: v, pos: 0, row: 1, column: 1 }
    }

    /// The remaining unconsumed input, for inspection.
    pub fn context(&self) -> (r: String)
        requires
            self.wf(),
        ensures
            r@ == self.st().rem,
    {
        seg_string(&self.origin, self.pos, self.origin.len())
    }

    /// The current character, without consuming it; nothing at end of input.
    pub fn peek(&mut self) -> (r: Option<char>)
        requires
            old(self).wf(),
        ensures
            *final(self) == *old(self),
            r == spec_peek(old(self).st()),
    {
        if self.pos < self.origin.len() {
            Some(self.origin[self.pos])
        } else {
            None
        }
    }

    /// Consumes the current character, moving the column by one (held at its
    /// maximum rather than wrapping), and returns the new current character;
    /// at end of input, does nothing and returns nothing.
    pub fn next(&mut self) -> (r: Option<char>)
        requires
            old(self).wf(),
        ensures
            final(self).wf(),
            final(self).text() == old(self).text(),
            old(self).st().rem.len() > 0 ==> cur_eq(final(self).st(), cur_adv(old(self).st(), 1))
                && r == spec_peek(final(self).st()),
            old(self).st().rem.len() == 0 ==> *final(self) == *old(self) && r is None,
    {
        if self.pos < self.origin.len() {
            self.pos = self.pos + 1;
            if self.column < usize::MAX {
                self.column = self.column + 1;
            }
            proof {
                assert(self.origin@.skip(self.pos as int) =~= old(self).origin@.skip(
                    old(self).pos as int,
                ).skip(1));
            }
            self.peek()
        } else {
            None
        }
    }

    /// Consumes the maximal run of whitespace: a blank moves the column by
    /// one, a newline moves to column 1 of the next row.
    #[verifier::loop_isolation(false)]
    pub fn parse_whitespace(&mut self)
        requires
            old(self).wf(),
        ensures
            final(self).wf(),
            final(self).text() == old(self).text(),
            cur_eq(final(self).st(), spec_skip_ws(old(self).st())),
    {
        while self.pos < self.origin.len() && (self.origin[self.pos] == '\t'
            || self.origin[self.pos] == '\x0C' || self.origin[self.pos] == ' '
            || self.origin[self.pos] == '\n' || self.origin[self.pos] == '\r')
            invariant
                self.wf(),
                self.text() == old(self).text(),
                spec_skip_ws(old(self).st()) == spec_skip_ws(self.st()),
            decreases self.origin@.len() - self.pos,
        {
            let ch = self.origin[self.pos];
            let ghost before = self.st();
            self.pos = self.pos + 1;
            if ch == '\n' || ch == '\r' {
                self.column = 1;
                if self.row < usize::MAX {
                    self.row = self.row + 1;
                }
            } else {
                if self.column < usize::MAX {
                    self.column = self.column + 1;
                }
            }
            proof {
                assert(self.origin@.skip(self.pos as int) =~= before.rem.skip(1));
                assert(spec_skip_ws(before) == spec_skip_ws(self.st()));
            }
        }
        proof {
            assert(spec_skip_ws(self.st()) == self.st());
        }
    }

    /// Consumes one character without looking at it.
    fn advance(&mut self)
        requires
            old(self).wf(),
            old(self).st().rem.len() > 0,
        ensures
            final(self).wf(),
            final(self).origin == old(self).origin,
            final(self).pos == old(self).pos + 1,
            final(self).row == old(self).row,
            final(self).st() == cur_adv(old(self).st(), 1),
    {
        let n = self.origin.len();
        proof {
            assert(self.st().rem.len() == self.origin@.len() - self.pos);
            assert(self.pos < n);
        }
        self.pos = self.pos + 1;
        if self.column < usize::MAX {
            self.column = self.column + 1;
        }
        proof {
            assert(self.origin@.skip(self.pos as int) =~= old(self).origin@.skip(
                old(self).pos as int,
            ).skip(1));
            assert(self.st() == cur_adv(old(self).st(), 1));
        }
    }

    /// Consumes the maximal run of digits after `base`, a position the
    /// caller measures scan marks from.
    #[verifier::loop_isolation(false)]
    fn skip_digits(&mut self, Ghost(t): Ghost<Seq<char>>, Ghost(base): Ghost<int>)
        requires
            old(self).wf(),
            0 <= base <= old(self).pos,
            t == old(self).origin@.skip(base),
        ensures
            final(self).wf(),
            final(self).text() == old(self).text(),
            old(self).pos <= final(self).pos,
            final(self).pos - base == digits_end(t, old(self).pos - base),
            final(self).st() == cur_adv(old(self).st(), final(self).pos - old(self).pos),
            final(self).row == old(self).row,
    {
        proof {
            assert(cur_adv(old(self).st(), 0) == self.st()) by {
                assert(old(self).st().rem.skip(0) =~= old(self).st().rem);
            }
        }
        while self.pos < self.origin.len() && self.origin[self.pos] as u32 >= 48
            && self.origin[self.pos] as u32 <= 57
            invariant
                self.wf(),
                self.text() == old(self).text(),
                base <= old(self).pos <= self.pos,
                self.row == old(self).row,
                digits_end(t, old(self).pos - base) == digits_end(t, self.pos - base),
                self.st() == cur_adv(old(self).st(), self.pos - old(self).pos),
            decreases self.origin@.len() - self.pos,
        {
            proof {
                assert(t[self.pos - base] == self.origin@[self.pos as int]);
                assert(is_digit(t[self.pos - base]));
                assert(digits_end(t, self.pos - base) == digits_end(t, self.pos - base + 1));
                lemma_cur_adv_compose(old(self).st(), self.pos - old(self).pos, 1);
            }
            self.advance();
        }
        proof {
            assert(digits_end(t, self.pos - base) == self.pos - base);
        }
    }

    /// Scans one number token: the marks where its parts end, or nothing
    /// when the integer part starts with a non-digit. The cursor is left
    /// past the token, or at the offending character.
    #[verifier::loop_isolation(false)]
    #[verifier::rlimit(100)]
    fn scan_number(&mut self, Ghost(t): Ghost<Seq<char>>) -> (r: Option<NumMarks>)
        requires
            old(self).wf(),
            t == old(self).st().rem,
        ensures
            final(self).wf(),
            final(self).text() == old(self).text(),
            final(self).row == old(self).row,
            match r {
                Some(m) => {
                    &&& old(self).pos + num_sign(t) == m.sign
                    &&& old(self).pos + num_int_end(t) == m.int_end
                    &&& old(self).pos + num_frac_end(t) == m.frac_end
                    &&& old(self).pos + num_end(t) == m.end
                    &&& m.has_marker == num_has_marker(t)
                    &&& (m.has_marker ==> m.marker == t[num_frac_end(t)] && m.expd == m.frac_end
                        + 1)
                    &&& (!m.has_marker ==> m.expd == m.frac_end)
                    &&& m.expd <= m.end <= old(self).origin@.len()
                    &&& (num_sign(t) < t.len() ==> is_digit(t[num_sign(t)]))
                    &&& final(self).st() == cur_adv(old(self).st(), num_end(t))
                    &&& final(self).pos == m.end
                },
                None => {
                    &&& num_sign(t) < t.len() && !is_digit(t[num_sign(t)])
                    &&& final(self).st() == cur_adv(old(self).st(), num_sign(t))
                },
            },
    {
        let ghost c0 = old(self).st();
        let p0 = self.pos;
        let len = self.origin.len();
        proof {
            assert(cur_adv(c0, 0) == self.st()) by {
                assert(c0.rem.skip(0) =~= c0.rem);
            }
        }
        // sign
        if self.pos < len && self.origin[self.pos] == '-' {
            self.advance();
        }
        let p_sign = self.pos;
        proof {
            assert(p_sign - p0 == num_sign(t));
            assert(self.st() == cur_adv(c0, p_sign - p0));
        }
        // integer part
        if self.pos < len {
            let ch = self.origin[self.pos];
            let u = ch as u32;
            proof {
                assert(t[p_sign - p0] == ch);
            }
            if u == 48 {
                self.advance();
                proof {
                    lemma_cur_adv_compose(c0, p_sign - p0, 1);
                }
            } else if 49 <= u && u <= 57 {
                self.skip_digits(Ghost(t), Ghost(p0 as int));
                proof {
                    lemma_cur_adv_compose(c0, p_sign - p0, self.pos - p_sign);
                }
            } else {
                proof {
                    assert(!is_digit(t[num_sign(t)]));
                }
                return None;
            }
        }
        let p_int = self.pos;
        proof {
            assert(p_int - p0 == num_int_end(t));
            assert(self.st() == cur_adv(c0, p_int - p0));
            assert(num_sign(t) < t.len() ==> is_digit(t[num_sign(t)]));
        }
        // fractional part
        if self.pos < len && self.origin[self.pos] == '.' {
            proof {
                assert(t[p_int - p0] == '.');
            }
            self.advance();
            self.skip_digits(Ghost(t), Ghost(p0 as int));
            proof {
                lemma_cur_adv_compose(c0, p_int - p0, 1);
                lemma_cur_adv_compose(c0, p_int - p0 + 1, self.pos - (p_int + 1));
            }
        } else {
            proof {
                assert(p_int < len ==> t[p_int - p0] != '.');
            }
        }
        let p_frac = self.pos;
        proof {
            assert(p_frac - p0 == num_frac_end(t));
            assert(self.st() == cur_adv(c0, p_frac - p0));
        }
        // exponent part
        let mut marker: char = ' ';
        let mut has_marker = false;
        if self.pos < len {
            let ch = self.origin[self.pos];
            proof {
                assert(t[p_frac - p0] == ch);
            }
            if ch == 'e' || ch == 'E' || ch == '+' || ch == '-' {
                has_marker = true;
                marker = ch;
                self.advance();
                proof {
                    lemma_cur_adv_compose(c0, p_frac - p0, 1);
                }
            }
        }
        proof {
            assert(has_marker == num_has_marker(t));
        }
        let p_expd = self.pos;
        self.skip_digits(Ghost(t), Ghost(p0 as int));
        let p_end = self.pos;
        proof {
            lemma_cur_adv_compose(c0, p_expd - p0, p_end - p_expd);
            assert(p_end - p0 == num_end(t));
            assert(self.st() == cur_adv(c0, p_end - p0));
        }
        Some(
            NumMarks {
                sign: p_sign,
                int_end: p_int,
                frac_end: p_frac,
                has_marker,
                marker,
                expd: p_expd,
                end: p_end,
            },
        )
    }

    /// Parses a number: an optional sign, an integer part that must start
    /// with a digit, an optional fraction after a dot, and an optional
    /// exponent. The token is converted to its exact canonical decimal; a
    /// token whose integer part is missing or whose exponent is malformed
    /// fails conversion, naming the token.
    #[verifier::rlimit(100)]
    pub fn parse_number(&mut self) -> (r: Result<Value, ParseError>)
        requires
            old(self).wf(),
        ensures
            final(self).wf(),
            final(self).text() == old(self).text(),
            match spec_number(old(self).st()) {
                SpecOut::Done { v, cur } => r matches Ok(val) && val@ == v && val.wf() && cur_eq(
                    final(self).st(),
                    cur,
                ),
                SpecOut::Fail { e } => r matches Err(pe) && err_eq(&pe, e),
            },
    {
        let ghost t = old(self).st().rem;
        let p0 = self.pos;
        let m = match self.scan_number(Ghost(t)) {
            None => {
                return Err(
                    ParseError {
                        row: self.row,
                        column: self.column,
                        desc: String::from_str("number integer expect '0..9'"),
                    },
                );
            },
            Some(m) => m,
        };
        proof {
            lemma_num_marks(t);
            lemma_digits_end(t, num_sign(t));
            if num_sign(t) < t.len() && is_digit(t[num_sign(t)]) {
                assert(digits_end(t, num_sign(t)) == digits_end(t, num_sign(t) + 1));
            }
            if num_sign(t) < t.len() && !is_digit(t[num_sign(t)]) {
                assert(digits_end(t, num_sign(t)) == num_sign(t));
            }
        }
        // validity
        let got_int = m.int_end > m.sign;
        let valid = got_int && (!m.has_marker || ((m.marker == 'e' || m.marker == 'E')
            && m.end > m.expd));
        proof {
            assert(got_int == (num_sign(t) < t.len() && is_digit(t[num_sign(t)])));
            assert(valid == num_valid(t));
        }
        if !valid {
            let tok = seg_string(&self.origin, p0, m.end);
            let mut d = String::from_str("'");
            d.append(tok.as_str());
            d.append("' to number invalid float literal error");
            proof {
                assert(tok@ =~= t.subrange(0, num_end(t)));
                assert(d@ =~= num_err_desc(t.subrange(0, num_end(t))));
            }
            return Err(ParseError { row: self.row, column: self.column, desc: d });
        }
        // significand digits
        proof {
            lemma_digits_end(t, m.sign - p0);
            if m.int_end < m.frac_end {
                lemma_digits_end(t, m.int_end - p0 + 1);
            }
            lemma_digits_end(t, m.expd - p0);
        }
        let had_frac = m.frac_end > m.int_end;
        let mut dv: Vec<u8>;
        let m_count: usize;
        if had_frac {
            dv = digit_values(&self.origin, m.sign, m.int_end, Ghost(t), Ghost(p0 as int));
            let fv = digit_values(
                &self.origin,
                m.int_end + 1,
                m.frac_end,
                Ghost(t),
                Ghost(p0 as int),
            );
            dv = concat_digits(dv, fv);
            m_count = m.int_end - m.sign;
        } else if m.has_marker {
            dv = digit_values(&self.origin, m.sign, m.int_end, Ghost(t), Ghost(p0 as int));
            m_count = m.int_end - m.sign;
        } else {
            proof {
                assert forall|j: int| m.sign - p0 <= j < m.end - p0 implies is_digit(
                    #[trigger] t[j],
                ) by {
                    if j < m.int_end - p0 {
                    } else {
                        assert(is_digit(t[j]));
                    }
                }
            }
            dv = digit_values(&self.origin, m.sign, m.end, Ghost(t), Ghost(p0 as int));
            m_count = m.end - m.sign;
        }
        proof {
            assert(dv@ =~= num_mantissa(t));
            assert(m_count as int == num_int_digits(t));
        }
        // exponent value
        let mut ev: u64 = 0;
        if m.has_marker && (m.marker == 'e' || m.marker == 'E') {
            ev = exp_value(&self.origin, m.expd, m.end, Ghost(t), Ghost(p0 as int));
        }
        proof {
            assert(ev as int == num_expv(t));
        }
        let had_sign = m.sign > p0;
        let num = canonical_number(dv, had_sign, m_count, ev);
        proof {
            assert(num_view(&num) =~= num_value(t));
        }
        Ok(Value::Number { v: num })
    }

    /// Parses a string: an opening quote, plain characters and the six
    /// supported escapes, and a closing quote. Reaching the end of input, or
    /// an unsupported escape, is the missing-closing-quote error at the point
    /// the scan stopped.
    #[verifier::loop_isolation(false)]
    pub fn parse_string(&mut self) -> (r: Result<Value, ParseError>)
        requires
            old(self).wf(),
        ensures
            final(self).wf(),
            final(self).text() == old(self).text(),
            match spec_string(old(self).st()) {
                SpecOut::Done { v: s, cur } => r matches Ok(val) && val matches Value::String {
                    v: sv,
                } && sv@ == s && cur_eq(final(self).st(), cur),
                SpecOut::Fail { e } => r matches Err(pe) && err_eq(&pe, e),
            },
    {
        if self.pos >= self.origin.len() || self.origin[self.pos] != '"' {
            return Err(
                ParseError {
                    row: self.row,
                    column: self.column,
                    desc: String::from_str("string start char expect '\"'"),
                },
            );
        }
        self.advance();
        let mut sb = String::new();
        loop
            invariant
                self.wf(),
                self.text() == old(self).text(),
                spec_string(old(self).st()) == spec_string_body(self.st(), sb@),
            decreases self.origin@.len() - self.pos,
        {
            if self.pos >= self.origin.len() {
                return Err(
                    ParseError {
                        row: self.row,
                        column: self.column,
                        desc: String::from_str("string end char expect '\"'"),
                    },
                );
            }
            let ch = self.origin[self.pos];
            if ch == '"' {
                self.advance();
                return Ok(Value::String { v: sb });
            }
            if ch == '\\' {
                let ghost head = self.st();
                if self.pos + 1 < self.origin.len() {
                    let c2 = self.origin[self.pos + 1];
                    if c2 == '"' || c2 == '\\' || c2 == '/' || c2 == 'n' || c2 == 'r' || c2
                        == 't' {
                        let tr = if c2 == 'n' {
                            '\n'
                        } else if c2 == 'r' {
                            '\r'
                        } else if c2 == 't' {
                            '\t'
                        } else {
                            c2
                        };
                        proof {
                            assert(head.rem[1] == c2);
                            assert(tr == escape_val(c2));
                            assert(spec_string_body(head, sb@) == spec_string_body(
                                cur_adv(head, 2),
                                sb@.push(tr),
                            ));
                        }
                        sb.push(tr);
                        self.advance();
                        self.advance();
                        proof {
                            assert(head.rem.skip(1).skip(1) =~= head.rem.skip(2));
                            assert(self.st() == cur_adv(head, 2));
                        }
                    } else {
                        proof {
                            assert(head.rem[1] == c2);
                        }
                        self.advance();
                        return Err(
                            ParseError {
                                row: self.row,
                                column: self.column,
                                desc: String::from_str("string end char expect '\"'"),
                            },
                        );
                    }
                } else {
                    self.advance();
                    return Err(
                        ParseError {
                            row: self.row,
                            column: self.column,
                            desc: String::from_str("string end char expect '\"'"),
                        },
                    );
                }
            } else {
                proof {
                    assert(spec_string_body(self.st(), sb@) == spec_string_body(
                        cur_adv(self.st(), 1),
                        sb@.push(ch),
                    ));
                }
                sb.push(ch);
                self.advance();
            }
        }
    }

    /// Matches the fixed text `literal` at the head of the remaining input
    /// and returns `v`; fails, consuming nothing, if the input is shorter
    /// than the literal or differs from it.
    #[verifier::loop_isolation(false)]
    pub fn parse_literal(&mut self, v: Value, literal: &str) -> (r: Result<Value, ParseError>)
        requires
            old(self).wf(),
        ensures
            final(self).wf(),
            final(self).text() == old(self).text(),
            match spec_literal(old(self).st(), literal@) {
                SpecOut::Done { v: _, cur } => r matches Ok(out) && out == v && cur_eq(
                    final(self).st(),
                    cur,
                ),
                SpecOut::Fail { e } => r matches Err(pe) && err_eq(&pe, e) && *final(self)
                    == *old(self),
            },
    {
        let n = literal.unicode_len();
        if self.origin.len() - self.pos < n {
            let mut d = String::from_str("literal '");
            let rest = seg_string(&self.origin, self.pos, self.origin.len());
            d.append(rest.as_str());
            d.append("' expect '");
            d.append(literal);
            d.append("'");
            proof {
                assert(d@ =~= "literal '"@ + old(self).st().rem + "' expect '"@ + literal@
                    + "'"@);
            }
            return Err(ParseError { row: self.row, column: self.column, desc: d });
        }
        let mut i: usize = 0;
        while i < n
            invariant
                0 <= i <= n,
                forall|j: int|
                    0 <= j < i ==> literal@[j] == old(self).st().rem[j],
            decreases n - i,
        {
            if literal.get_char(i) != self.origin[self.pos + i] {
                let mut d = String::from_str("literal not eq ");
                d.append(literal);
                proof {
                    assert(d@ =~= "literal not eq "@ + literal@);
                    assert(old(self).st().rem.subrange(0, n as int)[i as int] != literal@[
                        i as int]);
                }
                return Err(ParseError { row: self.row, column: self.column, desc: d });
            }
            i = i + 1;
        }
        proof {
            assert(old(self).st().rem.subrange(0, n as int) =~= literal@);
        }
        self.pos = self.pos + n;
        proof {
            assert(self.origin@.skip(self.pos as int) =~= old(self).st().rem.skip(n as int));
        }
        Ok(v)
    }

    /// Parses one value, dispatching on the next character: `n`, `f` and
    /// `t` try the fixed literals, a quote a string, a bracket an array, a
    /// brace an object, and anything else falls through to the number
    /// production.
    #[verifier::rlimit(100)]
    pub fn parse_value(&mut self) -> (r: Result<Value, ParseError>)
        requires
            old(self).wf(),
        ensures
            final(self).wf(),
            final(self).text() == old(self).text(),
            match spec_value(old(self).st()) {
                SpecOut::Done { v, cur } => r matches Ok(val) && val@ == v && val.wf() && cur_eq(
                    final(self).st(),
                    cur,
                ),
                SpecOut::Fail { e } => r matches Err(pe) && err_eq(&pe, e),
            },
        decreases self.origin@.len() - self.pos, 1int,
    {
        let ghost c = old(self).st();
        match self.peek() {
            Some('n') => {
                proof {
                    assert(spec_value(c) == lift_literal(spec_literal(c, "null"@), SpecValue::Null));
                }
                self.parse_literal(Value::Null, "null")
            },
            Some('f') => {
                proof {
                    assert(spec_value(c) == lift_literal(
                        spec_literal(c, "false"@),
                        SpecValue::False,
                    ));
                }
                self.parse_literal(Value::False, "false")
            },
            Some('t') => {
                proof {
                    assert(spec_value(c) == lift_literal(spec_literal(c, "true"@), SpecValue::True));
                }
                self.parse_literal(Value::True, "true")
            },
            Some('"') => {
                proof {
                    assert(c.rem.len() > 0 && c.rem[0] == '"');
                }
                self.parse_string()
            },
            Some('[') => self.parse_array(),
            Some('{') => self.parse_object(),
            _ => {
                proof {
                    assert(spec_value(c) == spec_number(c));
                }
                self.parse_number()
            },
        }
    }

    /// Parses one element: whitespace, a value, whitespace.
    #[verifier::rlimit(100)]
    pub fn parse_element(&mut self) -> (r: Result<Value, ParseError>)
        requires
            old(self).wf(),
        ensures
            final(self).wf(),
            final(self).text() == old(self).text(),
            match spec_element(old(self).st()) {
                SpecOut::Done { v, cur } => r matches Ok(val) && val@ == v && val.wf() && cur_eq(
                    final(self).st(),
                    cur,
                ),
                SpecOut::Fail { e } => r matches Err(pe) && err_eq(&pe, e),
            },
        decreases self.origin@.len() - self.pos, 2int,
    {
        let ghost c = old(self).st();
        self.parse_whitespace();
        let ghost c1 = spec_skip_ws(c);
        proof {
            lemma_skip_ws_le(c);
            assert(self.st() == c1);
        }
        let v = match self.parse_value() {
            Err(e) => {
                proof {
                    assert(spec_element(c) matches SpecOut::Fail { e: e2 } && err_eq(&e, e2));
                }
                return Err(e);
            },
            Ok(v) => v,
        };
        proof {
            match spec_value(c1) {
                SpecOut::Done { v: sv, cur } => {
                    assert(spec_element(c) == (SpecOut::Done {
                        v: sv,
                        cur: spec_skip_ws(cur),
                    }));
                },
                SpecOut::Fail { e: _ } => {
                    assert(false);
                },
            }
        }
        self.parse_whitespace();
        Ok(v)
    }

    /// Parses one or more comma-separated elements, pushing each onto
    /// `arr`, as a loop rather than by recursion.
    #[verifier::loop_isolation(false)]
    #[verifier::rlimit(100)]
    fn parse_elements(&mut self, arr: &mut Vec<Value>) -> (r: Result<(), ParseError>)
        requires
            old(self).wf(),
            old(arr)@.len() == 0,
        ensures
            final(self).wf(),
            final(self).text() == old(self).text(),
            match spec_elements(old(self).st()) {
                SpecOut::Done { v: vs, cur } => r matches Ok(u) && elems_view(final(arr)@) == vs
                    && (forall|i: int|
                    0 <= i < final(arr)@.len() ==> (#[trigger] final(arr)@[i]).wf()) && cur_eq(
                    final(self).st(),
                    cur,
                ),
                SpecOut::Fail { e } => r matches Err(pe) && err_eq(&pe, e),
            },
        decreases self.origin@.len() - self.pos, 4int,
    {
        let ghost c0 = old(self).st();
        proof {
            lemma_elems_view(old(arr)@);
            assert(elems_view(old(arr)@) =~= Seq::<SpecValue>::empty());
        }
        loop
            invariant
                self.wf(),
                self.text() == old(self).text(),
                old(self).pos <= self.pos,
                forall|i: int| 0 <= i < arr@.len() ==> (#[trigger] arr@[i]).wf(),
                elems_rest(spec_elements(c0), elems_view(arr@), spec_elements(self.st())),
            decreases self.origin@.len() - self.pos,
        {
            let ghost cn = self.st();
            let v = match self.parse_element() {
                Err(e) => {
                    proof {
                        assert(spec_elements(cn) matches SpecOut::Fail { e: e2 } && err_eq(
                            &e,
                            e2,
                        ));
                    }
                    return Err(e);
                },
                Ok(v) => v,
            };
            let ghost c1 = self.st();
            let ghost sv = match spec_element(cn) {
                SpecOut::Done { v: sv, cur } => sv,
                SpecOut::Fail { e } => arbitrary(),
            };
            proof {
                lemma_element_le(cn);
                lemma_elems_view(arr@.push(v));
                assert(arr@.push(v).drop_last() =~= arr@);
                assert(elems_view(arr@.push(v)) == elems_view(arr@).push(v@));
            }
            arr.push(v);
            let more = match self.peek() {
                Some(',') => true,
                _ => false,
            };
            if more {
                self.next();
                proof {
                    assert(c1.rem.len() <= cn.rem.len());
                    assert(self.st() == cur_adv(c1, 1));
                    assert(spec_elements(cn) == (match spec_elements(cur_adv(c1, 1)) {
                        SpecOut::Fail { e } => SpecOut::Fail::<Seq<SpecValue>> { e },
                        SpecOut::Done { v: vs, cur: c3 } => SpecOut::Done {
                            v: seq![sv] + vs,
                            cur: c3,
                        },
                    }));
                    match spec_elements(c0) {
                        SpecOut::Done { v: vs0, cur } => {
                            match spec_elements(cur_adv(c1, 1)) {
                                SpecOut::Done { v: vs, cur: _ } => {
                                    assert(vs0 =~= elems_view(arr@) + vs);
                                },
                                SpecOut::Fail { e: _ } => {},
                            }
                        },
                        SpecOut::Fail { e: _ } => {},
                    }
                }
            } else {
                proof {
                    assert(spec_elements(cn) == (SpecOut::Done { v: seq![sv], cur: c1 }));
                    match spec_elements(c0) {
                        SpecOut::Done { v: vs0, cur } => {
                            assert(vs0 =~= elems_view(arr@));
                        },
                        SpecOut::Fail { e: _ } => {
                            assert(false);
                        },
                    }
                }
                return Ok(());
            }
        }
    }

    /// Parses an array: the opening bracket (consumed without looking, as
    /// the dispatcher guarantees it), whitespace, optionally elements, and
    /// the closing bracket, whose absence is an error.
    #[verifier::rlimit(100)]
    pub fn parse_array(&mut self) -> (r: Result<Value, ParseError>)
        requires
            old(self).wf(),
        ensures
            final(self).wf(),
            final(self).text() == old(self).text(),
            match spec_array(old(self).st()) {
                SpecOut::Done { v, cur } => r matches Ok(val) && val@ == v && val.wf() && cur_eq(
                    final(self).st(),
                    cur,
                ),
                SpecOut::Fail { e } => r matches Err(pe) && err_eq(&pe, e),
            },
        decreases self.origin@.len() - self.pos, 0int,
    {
        let ghost c = old(self).st();
        if self.pos >= self.origin.len() {
            let mut d = String::from_str("'");
            d.append("' to number invalid float literal error");
            proof {
                assert(d@ =~= num_err_desc(Seq::empty()));
            }
            return Err(ParseError { row: self.row, column: self.column, desc: d });
        }
        self.advance();
        self.parse_whitespace();
        let ghost c2 = spec_skip_ws(cur_adv(c, 1));
        proof {
            lemma_skip_ws_le(cur_adv(c, 1));
            assert(self.st() == c2);
            assert(c2.rem.len() < c.rem.len());
        }
        let mut arr: Vec<Value> = Vec::new();
        let mut at_end = match self.peek() {
            Some(']') => true,
            _ => false,
        };
        if !at_end {
            match self.parse_elements(&mut arr) {
                Err(e) => {
                    return Err(e);
                },
                Ok(u) => {},
            }
            at_end = match self.peek() {
                Some(']') => true,
                _ => false,
            };
            if !at_end {
                return Err(
                    ParseError {
                        row: self.row,
                        column: self.column,
                        desc: String::from_str("array end char expect ']'"),
                    },
                );
            }
            self.advance();
            proof {
                lemma_elems_view(arr@);
            }
            Ok(Value::Array { v: arr })
        } else {
            self.advance();
            proof {
                lemma_elems_view(arr@);
                assert(elems_view(arr@) =~= Seq::<SpecValue>::empty());
            }
            Ok(Value::Array { v: arr })
        }
    }

    /// Parses one object member: whitespace, a string key, whitespace, a
    /// colon, and the element it introduces.
    #[verifier::rlimit(100)]
    fn parse_member(&mut self) -> (r: Result<(Value, Value), ParseError>)
        requires
            old(self).wf(),
        ensures
            final(self).wf(),
            final(self).text() == old(self).text(),
            match spec_member(old(self).st()) {
                SpecOut::Done { v: kv, cur } => r matches Ok(p) && p.0 matches Value::String {
                    v: ks,
                } && ks@ == kv.0 && p.1@ == kv.1 && p.1.wf() && cur_eq(final(self).st(), cur),
                SpecOut::Fail { e } => r matches Err(pe) && err_eq(&pe, e),
            },
        decreases self.origin@.len() - self.pos, 3int,
    {
        let ghost c = old(self).st();
        self.parse_whitespace();
        let ghost c1 = spec_skip_ws(c);
        proof {
            lemma_skip_ws_le(c);
            lemma_string_le(c1);
            assert(self.st() == c1);
        }
        let k = match self.parse_string() {
            Err(e) => {
                return Err(e);
            },
            Ok(k) => k,
        };
        self.parse_whitespace();
        let ghost c3 = match spec_string(c1) {
            SpecOut::Done { v: _, cur } => spec_skip_ws(cur),
            SpecOut::Fail { e } => arbitrary(),
        };
        proof {
            match spec_string(c1) {
                SpecOut::Done { v: _, cur } => {
                    lemma_skip_ws_le(cur);
                },
                SpecOut::Fail { e: _ } => {
                    assert(false);
                },
            }
            assert(self.st() == c3);
            assert(c3.rem.len() <= c.rem.len());
        }
        let colon = match self.peek() {
            Some(':') => true,
            _ => false,
        };
        if !colon {
            return Err(
                ParseError {
                    row: self.row,
                    column: self.column,
                    desc: String::from_str("member expect ':'"),
                },
            );
        }
        self.next();
        proof {
            assert(self.st() == cur_adv(c3, 1));
        }
        let v = match self.parse_element() {
            Err(e) => {
                return Err(e);
            },
            Ok(v) => v,
        };
        Ok((k, v))
    }

    /// Parses one or more comma-separated members, inserting each into
    /// `objs` with a later member overwriting an earlier one of the same
    /// key, as a loop rather than by recursion.
    #[verifier::loop_isolation(false)]
    #[verifier::rlimit(100)]
    fn parse_members(&mut self, objs: &mut Vec<(String, Value)>) -> (r: Result<(), ParseError>)
        requires
            old(self).wf(),
            old(objs)@.len() == 0,
        ensures
            final(self).wf(),
            final(self).text() == old(self).text(),
            match spec_members(old(self).st()) {
                SpecOut::Done { v: kvs, cur } => r matches Ok(u) && key_unique(final(objs)@)
                    && entries_map(final(objs)@) == pairs_map(kvs) && (forall|i: int|
                    0 <= i < final(objs)@.len() ==> (#[trigger] final(objs)@[i]).1.wf())
                    && cur_eq(final(self).st(), cur),
                SpecOut::Fail { e } => r matches Err(pe) && err_eq(&pe, e),
            },
        decreases self.origin@.len() - self.pos, 4int,
    {
        let ghost c0 = old(self).st();
        proof {
            assert(entries_map(old(objs)@) =~= Map::<Seq<char>, SpecValue>::empty());
            match spec_members(c0) {
                SpecOut::Done { v: kvs0, cur } => {
                    lemma_pairs_map_insert_all(kvs0);
                },
                SpecOut::Fail { e: _ } => {},
            }
        }
        loop
            invariant
                self.wf(),
                self.text() == old(self).text(),
                old(self).pos <= self.pos,
                key_unique(objs@),
                forall|i: int| 0 <= i < objs@.len() ==> (#[trigger] objs@[i]).1.wf(),
                members_rest(spec_members(c0), entries_map(objs@), spec_members(self.st())),
            decreases self.origin@.len() - self.pos,
        {
            let ghost cn = self.st();
            let p = match self.parse_member() {
                Err(e) => {
                    proof {
                        assert(spec_members(cn) matches SpecOut::Fail { e: e2 } && err_eq(
                            &e,
                            e2,
                        ));
                    }
                    return Err(e);
                },
                Ok(p) => p,
            };
            let (k, v) = p;
            let key = value_string(k).unwrap();
            let ghost c1 = self.st();
            let ghost skv = match spec_member(cn) {
                SpecOut::Done { v: skv, cur } => skv,
                SpecOut::Fail { e } => arbitrary(),
            };
            proof {
                lemma_member_le(cn);
            }
            let ghost m0 = entries_map(objs@);
            object_insert(objs, key, v);
            proof {
                assert(entries_map(objs@) == m0.insert(skv.0, skv.1));
            }
            let more = match self.peek() {
                Some(',') => true,
                _ => false,
            };
            if more {
                self.next();
                proof {
                    assert(c1.rem.len() <= cn.rem.len());
                    assert(self.st() == cur_adv(c1, 1));
                    assert(spec_members(cn) == (match spec_members(cur_adv(c1, 1)) {
                        SpecOut::Fail { e } => SpecOut::Fail::<Seq<(Seq<char>, SpecValue)>> {
                            e,
                        },
                        SpecOut::Done { v: kvs, cur: c3 } => SpecOut::Done {
                            v: seq![skv] + kvs,
                            cur: c3,
                        },
                    }));
                    match spec_members(c0) {
                        SpecOut::Done { v: kvs0, cur } => {
                            match spec_members(cur_adv(c1, 1)) {
                                SpecOut::Done { v: kvs, cur: _ } => {
                                    assert((seq![skv] + kvs)[0] == skv);
                                    assert((seq![skv] + kvs).drop_first() =~= kvs);
                                    assert(insert_all(m0, seq![skv] + kvs) == insert_all(
                                        m0.insert(skv.0, skv.1),
                                        kvs,
                                    ));
                                    assert(insert_all(
                                        entries_map(objs@),
                                        kvs,
                                    ) == pairs_map(kvs0));
                                },
                                SpecOut::Fail { e: _ } => {},
                            }
                        },
                        SpecOut::Fail { e: _ } => {},
                    }
                }
            } else {
                proof {
                    assert(spec_members(cn) == (SpecOut::Done { v: seq![skv], cur: c1 }));
                    match spec_members(c0) {
                        SpecOut::Done { v: kvs0, cur } => {
                            assert((seq![skv])[0] == skv);
                            assert((seq![skv]).drop_first()
                                =~= Seq::<(Seq<char>, SpecValue)>::empty());
                            assert(insert_all(m0, seq![skv]) == insert_all(
                                m0.insert(skv.0, skv.1),
                                (seq![skv]).drop_first(),
                            ));
                            assert(insert_all(m0, seq![skv]) == m0.insert(skv.0, skv.1));
                            assert(entries_map(objs@) == pairs_map(kvs0));
                        },
                        SpecOut::Fail { e: _ } => {
                            assert(false);
                        },
                    }
                }
                return Ok(());
            }
        }
    }

    /// Parses an object: the opening brace (consumed without looking),
    /// whitespace, optionally members, and the closing brace, whose absence
    /// is an error.
    #[verifier::rlimit(100)]
    pub fn parse_object(&mut self) -> (r: Result<Value, ParseError>)
        requires
            old(self).wf(),
        ensures
            final(self).wf(),
            final(self).text() == old(self).text(),
            match spec_object(old(self).st()) {
                SpecOut::Done { v, cur } => r matches Ok(val) && val@ == v && val.wf() && cur_eq(
                    final(self).st(),
                    cur,
                ),
                SpecOut::Fail { e } => r matches Err(pe) && err_eq(&pe, e),
            },
        decreases self.origin@.len() - self.pos, 0int,
    {
        let ghost c = old(self).st();
        if self.pos >= self.origin.len() {
            return Err(
                ParseError {
                    row: self.row,
                    column: self.column,
                    desc: String::from_str("string start char expect '\"'"),
                },
            );
        }
        self.advance();
        self.parse_whitespace();
        let ghost c2 = spec_skip_ws(cur_adv(c, 1));
        proof {
            lemma_skip_ws_le(cur_adv(c, 1));
            assert(self.st() == c2);
            assert(c2.rem.len() < c.rem.len());
        }
        let mut objs: Vec<(String, Value)> = Vec::new();
        let mut at_end = match self.peek() {
            Some('}') => true,
            _ => false,
        };
        if !at_end {
            match self.parse_members(&mut objs) {
                Err(e) => {
                    return Err(e);
                },
                Ok(u) => {},
            }
            at_end = match self.peek() {
                Some('}') => true,
                _ => false,
            };
            if !at_end {
                return Err(
                    ParseError {
                        row: self.row,
                        column: self.column,
                        desc: String::from_str("object end char expect '}'"),
                    },
                );
            }
            self.advance();
            Ok(Value::Object { v: objs })
        } else {
            self.advance();
            proof {
                assert(entries_map(objs@) =~= Map::<Seq<char>, SpecValue>::empty());
            }
            Ok(Value::Object { v: objs })
        }
    }

    /// One reader hands back the same outcome on every `parse` call:
    /// `parse` restarts from the full text, which no call changes, so each
    /// call's result is pinned to `spec_parse` of one and the same text.
    pub proof fn lemma_parse_reuse(before: Reader, after: Reader)
        requires
            after.text() == before.text(),
        ensures
            spec_parse(after.text()) == spec_parse(before.text()),
    {
    }

    /// Parses the whole text as one element, restarting from its beginning
    /// at row 1 and column 1, so one reader can be reused for repeated
    /// parses. Any unconsumed text left after the element, other than
    /// whitespace, is the trailing-input error, naming the remainder.
    #[verifier::rlimit(100)]
    pub fn parse(&mut self) -> (r: Result<Value, ParseError>)
        requires
            old(self).wf(),
        ensures
            final(self).wf(),
            final(self).text() == old(self).text(),
            match spec_parse(old(self).text()) {
                SpecOut::Done { v, cur } => r matches Ok(val) && val@ == v && val.wf(),
                SpecOut::Fail { e } => r matches Err(pe) && err_eq(&pe, e),
            },
    {
        self.pos = 0;
        self.row = 1;
        self.column = 1;
        proof {
            assert(self.st() == (SpecCursor { rem: old(self).origin@, row: 1, col: 1 })) by {
                assert(old(self).origin@.skip(0) =~= old(self).origin@);
            }
        }
        let x = match self.parse_element() {
            Ok(x) => x,
            Err(e) => {
                return Err(e);
            },
        };
        if self.pos < self.origin.len() {
            let rest = seg_string(&self.origin, self.pos, self.origin.len());
            let mut d = String::from_str("value not finished '");
            d.append(rest.as_str());
            d.append("'");
            proof {
                assert(d@ =~= "value not finished '"@ + self.st().rem + "'"@);
            }
            return Err(ParseError { row: self.row, column: self.column, desc: d });
        }
        Ok(x)
    }

}


} // verus!
