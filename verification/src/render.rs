//! Plain-text rendering of values and tables.
//!
//! Rendering is presentation: it exists so that callers can observe a
//! table, and no invariant of the store depends on it.  Both levels
//! are rendered exactly: a value's text is [`spec_render`] of its
//! model, and a table's grid is [`spec_grid`] of the table.

use vstd::prelude::*;

use crate::data::{all_digits, digit_val, digits_val, Data, DataModel};
use crate::table::Table;

verus! {

/// The character of a decimal digit value.
pub open spec fn digit_char(d: int) -> char {
    ((48 + d) as u32) as char
}

/// The canonical decimal digits of the non-negative number `m`, most
/// significant first, without leading zeroes.
pub open spec fn spec_render_u(m: int) -> Seq<char>
    decreases m,
{
    if m < 10 {
        seq![digit_char(m)]
    } else {
        spec_render_u(m / 10).push(digit_char(m % 10))
    }
}

/// The canonical decimal rendering of `n`: its magnitude's digits,
/// with a leading minus sign when `n` is negative.
pub open spec fn spec_render_int(n: int) -> Seq<char> {
    if n >= 0 {
        spec_render_u(n)
    } else {
        seq!['-'] + spec_render_u(-n)
    }
}

/// How each value renders: text by its characters, a character by
/// itself, an integer in decimal, a boolean as `true` or `false`, and
/// a blob as an opaque marker.
pub open spec fn spec_render(d: DataModel) -> Seq<char> {
    match d {
        DataModel::Text(t) => t,
        DataModel::Character(c) => seq![c],
        DataModel::Integer(n) => spec_render_int(n),
        DataModel::Boolean(b) => if b {
            "true"@
        } else {
            "false"@
        },
        DataModel::Blob(_) => "-- blob --"@,
    }
}

/// Whether `s` is a canonical decimal digit sequence denoting `m`:
/// digits only, with no leading zero.  Such a sequence is unique
/// ([`lemma_canonical_is_spec`]).
pub open spec fn is_canonical_digits(s: Seq<char>, m: int) -> bool {
    &&& all_digits(s)
    &&& s.len() > 0
    &&& digits_val(s) == m
    &&& (digit_val(s[0]) != 0 || s.len() == 1)
}

/// A non-empty digit sequence with a non-zero leading digit denotes at
/// least one.
proof fn lemma_leading_value(s: Seq<char>)
    requires
        all_digits(s),
        s.len() >= 1,
        digit_val(s[0]) >= 1,
    ensures
        digits_val(s) >= 1,
    decreases s.len(),
{
    if s.len() == 1 {
        assert(s.drop_last() =~= Seq::<char>::empty());
        assert(digits_val(Seq::<char>::empty()) == 0);
    } else {
        assert(all_digits(s.drop_last()));
        assert(s.drop_last()[0] == s[0]);
        lemma_leading_value(s.drop_last());
    }
}

/// There is exactly one canonical digit sequence for each number: a
/// canonical rendering of `m` is [`spec_render_u`] of `m`.
proof fn lemma_canonical_is_spec(s: Seq<char>, m: int)
    requires
        is_canonical_digits(s, m),
        m >= 0,
    ensures
        s =~= spec_render_u(m),
    decreases s.len(),
{
    if s.len() == 1 {
        assert(s.drop_last() =~= Seq::<char>::empty());
        assert(digits_val(Seq::<char>::empty()) == 0);
        assert(m == digit_val(s[0]));
        assert(s[0] as u32 == 48 + m);
        vstd::utf8::char_u32_cast(s[0], s[0] as u32);
        assert(digit_char(m) == s[0]);
        assert(m < 10);
    } else {
        let pre = s.drop_last();
        let d = digit_val(s.last());
        let q = digits_val(pre);
        assert(all_digits(pre));
        assert(pre[0] == s[0]);
        assert(digit_val(s[0]) >= 1);
        lemma_leading_value(pre);
        crate::data::lemma_digits_val_nonneg(pre);
        assert(m == q * 10 + d);
        assert(m >= 10) by {
            assert(q >= 1);
            assert(d >= 0);
        }
        vstd::arithmetic::div_mod::lemma_fundamental_div_mod_converse(m, 10, q, d);
        assert(m / 10 == q);
        assert(m % 10 == d);
        assert(is_canonical_digits(pre, q));
        lemma_canonical_is_spec(pre, q);
        assert(s.last() as u32 == 48 + d);
        vstd::utf8::char_u32_cast(s.last(), s.last() as u32);
        assert(digit_char(d) == s.last());
        assert(s =~= pre.push(s.last()));
    }
}

/// Relies on `String::push`: appends exactly the given character.
#[verifier::external_body]
fn push_char(s: &mut String, c: char)
    ensures
        final(s)@ == old(s)@.push(c),
{
    s.push(c);
}

/// The number denoted by a sequence of decimal digits, least
/// significant first.
spec fn lsb_val(s: Seq<char>) -> int
    decreases s.len(),
{
    if s.len() == 0 {
        0
    } else {
        digit_val(s[0]) + 10 * lsb_val(s.drop_first())
    }
}

spec fn pow10(n: nat) -> int
    decreases n,
{
    if n == 0 {
        1
    } else {
        10 * pow10((n - 1) as nat)
    }
}

proof fn lemma_lsb_push(s: Seq<char>, c: char)
    ensures
        lsb_val(s.push(c)) == lsb_val(s) + digit_val(c) * pow10(s.len()),
    decreases s.len(),
{
    if s.len() == 0 {
        assert(s.push(c)[0] == c);
        assert(s.push(c).drop_first() =~= Seq::<char>::empty());
        assert(lsb_val(Seq::<char>::empty()) == 0);
        assert(lsb_val(s.push(c)) == digit_val(c) + 10 * lsb_val(s.push(c).drop_first()));
        assert(pow10(s.len()) == 1);
        assert(lsb_val(s) == 0);
    } else {
        assert(s.push(c)[0] == s[0]);
        assert(s.push(c).drop_first() =~= s.drop_first().push(c));
        lemma_lsb_push(s.drop_first(), c);
        assert(10 * (lsb_val(s.drop_first()) + digit_val(c) * pow10(s.drop_first().len())) == 10
            * lsb_val(s.drop_first()) + digit_val(c) * (10 * pow10(s.drop_first().len())))
            by (nonlinear_arith);
        assert(pow10(s.len()) == 10 * pow10(s.drop_first().len()));
        assert(lsb_val(s) == digit_val(s[0]) + 10 * lsb_val(s.drop_first()));
        assert(lsb_val(s.push(c)) == digit_val(s[0]) + 10 * lsb_val(s.drop_first().push(c)));
        assert(lsb_val(s.push(c)) == lsb_val(s) + digit_val(c) * pow10(s.len()));
    }
}

proof fn lemma_lsb_reverse(s: Seq<char>)
    ensures
        digits_val(s.reverse()) == lsb_val(s),
    decreases s.len(),
{
    if s.len() > 0 {
        assert(s.reverse().last() == s[0]);
        assert(s.reverse().drop_last() =~= s.drop_first().reverse());
        lemma_lsb_reverse(s.drop_first());
    }
}

/// Canonical decimal rendering of an unsigned 64-bit number.
fn u64_to_decimal(m: u64) -> (r: String)
    ensures
        r@ == spec_render_u(m as int),
{
    if m == 0 {
        let r = String::from_str("0");
        proof {
            reveal_strlit("0");
            assert(r@ =~= seq!['0']);
            assert('0' as u32 == 48);
            vstd::utf8::char_u32_cast('0', 48);
            assert(digit_char(0) == '0');
            assert(r@ =~= spec_render_u(0));
        }
        return r;
    }
    let mut digits: Vec<char> = Vec::new();
    let mut x = m;
    while x > 0
        invariant
            m as int == lsb_val(digits@) + (x as int) * pow10(digits@.len() as nat),
            all_digits(digits@),
            x == 0 ==> digits@.len() > 0 && (digit_val(digits@.last()) != 0 || digits@.len()
                == 1),
        decreases x,
    {
        let d8: u8 = (x % 10) as u8;
        let c: char = (48 + d8) as char;
        let ghost pre = digits@;
        let ghost x0 = x as int;
        digits.push(c);
        x = x / 10;
        proof {
            assert(c as u32 == 48 + d8);
            assert(digit_val(c) == d8 as int);
            assert(digits@ =~= pre.push(c));
            lemma_lsb_push(pre, c);
            let p = pow10(pre.len());
            let q = x as int;
            assert(x0 == 10 * q + d8);
            assert((10 * q + d8) * p == q * (10 * p) + (d8 as int) * p) by (nonlinear_arith);
            assert(pow10(digits@.len() as nat) == 10 * p);
            assert(m as int == lsb_val(digits@) + q * pow10(digits@.len() as nat));
        }
    }
    let n = digits.len();
    let mut r = String::new();
    let mut i = n;
    while i > 0
        invariant
            n == digits@.len(),
            i <= n,
            r@.len() == n - i,
            forall|k: int| 0 <= k < n - i ==> r@[k] == digits@[n - 1 - k],
        decreases i,
    {
        i -= 1;
        let ghost pre = r@;
        let c = digits[i];
        push_char(&mut r, c);
        proof {
            assert(r@ =~= pre.push(digits@[i as int]));
        }
    }
    proof {
        assert(r@ =~= digits@.reverse());
        lemma_lsb_reverse(digits@);
        assert(digits_val(r@) == m as int);
        assert(r@[0] == digits@[n - 1]);
        assert(digits@.last() == digits@[n - 1]);
        assert forall|k: int| 0 <= k < r@.len() implies crate::data::is_digit(
            #[trigger] r@[k],
        ) by {
            assert(r@[k] == digits@[n - 1 - k]);
        }
        assert(is_canonical_digits(r@, m as int));
        lemma_canonical_is_spec(r@, m as int);
    }
    r
}

/// Canonical decimal rendering of a signed 64-bit number.
fn i64_to_decimal(v: i64) -> (r: String)
    ensures
        r@ == spec_render_int(v as int),
{
    if v >= 0 {
        u64_to_decimal(v as u64)
    } else {
        let m: u64 = ((-(v + 1)) as u64) + 1;
        proof {
            assert(m as int == -(v as int));
        }
        let digits = u64_to_decimal(m);
        let mut r = String::new();
        push_char(&mut r, '-');
        r.append(digits.as_str());
        proof {
            assert(r@ =~= seq!['-'] + digits@);
        }
        r
    }
}

impl Data {
    /// Render the value as plain text: exactly [`spec_render`] of its
    /// model.
    pub fn render(&self) -> (r: String)
        ensures
            r@ == spec_render(self@),
    {
        match self {
            Data::Text(s) => s.clone(),
            Data::Character(c) => {
                let mut r = String::new();
                push_char(&mut r, *c);
                proof {
                    assert(r@ =~= seq![*c]);
                }
                r
            },
            Data::Integer(i) => i64_to_decimal(*i),
            Data::Boolean(b) => {
                if *b {
                    String::from_str("true")
                } else {
                    String::from_str("false")
                }
            },
            Data::Blob(_) => String::from_str("-- blob --"),
        }
    }
}

/// A sequence of `n` copies of `c` (empty when `n` is negative).
pub open spec fn spec_repeat(c: char, n: int) -> Seq<char> {
    Seq::new(
        if n >= 0 {
            n as nat
        } else {
            0
        },
        |k: int| c,
    )
}

/// A string of `n` copies of `c`.
fn repeat_char(c: char, n: usize) -> (r: String)
    ensures
        r@ == spec_repeat(c, n as int),
{
    let mut r = String::new();
    let mut i: usize = 0;
    while i < n
        invariant
            i <= n,
            r@.len() == i,
            forall|k: int| 0 <= k < i ==> r@[k] == c,
        decreases n - i,
    {
        push_char(&mut r, c);
        i += 1;
    }
    proof {
        assert(r@ =~= spec_repeat(c, n as int));
    }
    r
}

/// Interior width of a column whose label has `n` characters: the
/// label plus five blanks of padding on each side.  Absurdly long
/// labels are clamped so that the width always fits.
pub open spec fn spec_cell_width(n: int) -> int {
    (if n > 100000 {
        100000int
    } else {
        n
    }) + 10
}

fn cell_width(label_len: usize) -> (r: usize)
    ensures
        r as int == spec_cell_width(label_len as int),
{
    let lw = if label_len > 100000 {
        100000
    } else {
        label_len
    };
    lw + 10
}

/// The label of the table's `i`-th column: its attribute, rendered.
pub open spec fn spec_label(t: Table, i: int) -> Seq<char> {
    spec_render(t.spec_attrs()[i])
}

/// The interior width of the table's `i`-th column.
pub open spec fn spec_width(t: Table, i: int) -> int {
    spec_cell_width(spec_label(t, i).len() as int)
}

/// The header cell of column `i`: the label between five blanks of
/// padding a side, closed by a border.
pub open spec fn header_cell(t: Table, i: int) -> Seq<char> {
    spec_repeat(' ', 5) + spec_label(t, i) + spec_repeat(' ', 5) + seq!['|']
}

/// The header line from column `i` on.
pub open spec fn header_from(t: Table, i: int) -> Seq<char>
    decreases t.spec_attrs().len() - i,
{
    if 0 <= i < t.spec_attrs().len() {
        header_cell(t, i) + header_from(t, i + 1)
    } else {
        Seq::empty()
    }
}

/// The horizontal rule from column `i` on: underscores across each
/// column's width and its border.
pub open spec fn rule_from(t: Table, i: int) -> Seq<char>
    decreases t.spec_attrs().len() - i,
{
    if 0 <= i < t.spec_attrs().len() {
        spec_repeat('_', spec_width(t, i) + 1) + rule_from(t, i + 1)
    } else {
        Seq::empty()
    }
}

/// One body cell: the stored value's rendering padded with blanks to
/// the column's width, cut to width minus three with an ellipsis when
/// oversized, or all blanks for a missing value.
pub open spec fn spec_cell(t: Table, rix: int, i: int) -> Seq<char> {
    match t.spec_cols()[i][rix] {
        None => spec_repeat(' ', spec_width(t, i)),
        Some(d) => {
            let vs = spec_render(d);
            if vs.len() <= spec_width(t, i) {
                vs + spec_repeat(' ', spec_width(t, i) - vs.len())
            } else {
                vs.take(spec_width(t, i) - 3) + seq!['.', '.', '.']
            }
        },
    }
}

/// The cells of row `rix` from column `i` on, each closed by a border.
pub open spec fn cells_from(t: Table, rix: int, i: int) -> Seq<char>
    decreases t.spec_attrs().len() - i,
{
    if 0 <= i < t.spec_attrs().len() {
        spec_cell(t, rix, i) + seq!['|'] + cells_from(t, rix, i + 1)
    } else {
        Seq::empty()
    }
}

/// The body from row `rix` on: each row's cells, a line break, a rule,
/// and another line break.
pub open spec fn rows_from(t: Table, rix: int) -> Seq<char>
    decreases t.spec_row_count() - rix,
{
    if 0 <= rix < t.spec_row_count() {
        cells_from(t, rix, 0) + seq!['\n'] + rule_from(t, 0) + seq!['\n'] + rows_from(t, rix + 1)
    } else {
        Seq::empty()
    }
}

/// The whole grid: the header line, a rule, then the body.
pub open spec fn spec_grid(t: Table) -> Seq<char> {
    header_from(t, 0) + seq!['\n'] + rule_from(t, 0) + seq!['\n'] + rows_from(t, 0)
}

impl Table {
    /// Render the table as a bordered text grid, exactly
    /// [`spec_grid`]: a header line of attribute labels in schema
    /// order, a horizontal rule, then one line per stored row, each
    /// followed by a rule.  A missing cell renders as blank padding;
    /// an oversized value is cut down and marked with an ellipsis.
    pub fn render(&self) -> (r: String)
        requires
            self.wf(),
        ensures
            r@ == spec_grid(*self),
    {
        let mut out = String::new();
        let alen = self.attrs.len();
        let mut widths: Vec<usize> = Vec::new();
        proof {
            assert(Seq::<char>::empty() + header_from(*self, 0) =~= header_from(*self, 0));
        }
        let mut i: usize = 0;
        while i < alen
            invariant
                self.wf(),
                alen == self.attrs@.len(),
                i <= alen,
                widths@.len() == i,
                forall|k: int| 0 <= k < i ==> #[trigger] widths@[k] as int == spec_width(*self, k),
                out@ + header_from(*self, i as int) == header_from(*self, 0),
            decreases alen - i,
        {
            let label = self.attrs[i].render();
            proof {
                assert(self.spec_attrs()[i as int] == self.attrs@[i as int].deep_view());
                assert(label@ == spec_label(*self, i as int));
            }
            let w = cell_width(label.as_str().unicode_len());
            widths.push(w);
            let ghost out0 = out@;
            out.append(repeat_char(' ', 5).as_str());
            out.append(label.as_str());
            out.append(repeat_char(' ', 5).as_str());
            push_char(&mut out, '|');
            proof {
                assert(out@ =~= out0 + header_cell(*self, i as int));
                assert(header_from(*self, i as int) == header_cell(*self, i as int) + header_from(
                    *self,
                    i as int + 1,
                ));
                assert(out@ + header_from(*self, i as int + 1) =~= header_from(*self, 0));
            }
            i += 1;
        }
        proof {
            assert(header_from(*self, alen as int) =~= Seq::<char>::empty());
            assert(out@ + header_from(*self, alen as int) =~= out@);
            assert(out@ =~= header_from(*self, 0));
        }
        push_char(&mut out, '\n');
        let rule = horizontal_rule(self, &widths);
        out.append(rule.as_str());
        push_char(&mut out, '\n');
        proof {
            assert(out@ + rows_from(*self, 0) =~= spec_grid(*self));
        }
        let rows = self.row_count();
        let mut rix: usize = 0;
        while rix < rows
            invariant
                self.wf(),
                alen == self.attrs@.len(),
                widths@.len() == alen,
                forall|k: int|
                    0 <= k < alen ==> #[trigger] widths@[k] as int == spec_width(*self, k),
                rule@ == rule_from(*self, 0),
                rows == self.spec_row_count(),
                rix <= rows,
                out@ + rows_from(*self, rix as int) == spec_grid(*self),
            decreases rows - rix,
        {
            let ghost row_start = out@;
            proof {
                assert(row_start + cells_from(*self, rix as int, 0) =~= out@ + cells_from(
                    *self,
                    rix as int,
                    0,
                ));
            }
            let mut i: usize = 0;
            while i < alen
                invariant
                    self.wf(),
                    alen == self.attrs@.len(),
                    widths@.len() == alen,
                    forall|k: int|
                        0 <= k < alen ==> #[trigger] widths@[k] as int == spec_width(*self, k),
                    rows == self.spec_row_count(),
                    rix < rows,
                    i <= alen,
                    row_start + cells_from(*self, rix as int, 0) == out@ + cells_from(
                        *self,
                        rix as int,
                        i as int,
                    ),
                decreases alen - i,
            {
                let w = widths[i];
                proof {
                    assert(self.spec_cols()[i as int] == self.cols@[i as int].deep_view());
                    assert(self.spec_cols()[i as int].len() == self.spec_row_count());
                    assert(self.spec_cols()[i as int][rix as int] == self.cols@[i as int]@[
                        rix as int
                    ].deep_view());
                }
                let ghost out0 = out@;
                match &self.cols[i][rix] {
                    Some(value) => {
                        let v = value.render();
                        let vl = v.as_str().unicode_len();
                        if vl <= w {
                            out.append(v.as_str());
                            out.append(repeat_char(' ', w - vl).as_str());
                        } else {
                            out.append(v.as_str().substring_char(0, w - 3));
                            push_char(&mut out, '.');
                            push_char(&mut out, '.');
                            push_char(&mut out, '.');
                            proof {
                                let vs = spec_render(value.deep_view());
                                assert(vs.take(spec_width(*self, i as int) - 3) =~= vs.subrange(
                                    0,
                                    w - 3,
                                ));
                            }
                        }
                    },
                    None => {
                        out.append(repeat_char(' ', w).as_str());
                    },
                }
                push_char(&mut out, '|');
                proof {
                    assert(out@ =~= out0 + spec_cell(*self, rix as int, i as int) + seq!['|']);
                    assert(cells_from(*self, rix as int, i as int) == spec_cell(
                        *self,
                        rix as int,
                        i as int,
                    ) + seq!['|'] + cells_from(*self, rix as int, i as int + 1));
                    assert(row_start + cells_from(*self, rix as int, 0) =~= out@ + cells_from(
                        *self,
                        rix as int,
                        i as int + 1,
                    ));
                }
                i += 1;
            }
            proof {
                assert(cells_from(*self, rix as int, alen as int) =~= Seq::<char>::empty());
                assert(out@ + cells_from(*self, rix as int, alen as int) =~= out@);
                assert(out@ =~= row_start + cells_from(*self, rix as int, 0));
            }
            push_char(&mut out, '\n');
            out.append(rule.as_str());
            push_char(&mut out, '\n');
            proof {
                assert(rows_from(*self, rix as int) == cells_from(*self, rix as int, 0)
                    + seq!['\n'] + rule_from(*self, 0) + seq!['\n'] + rows_from(
                    *self,
                    rix as int + 1,
                ));
                assert(out@ + rows_from(*self, rix as int + 1) =~= spec_grid(*self));
            }
            rix += 1;
        }
        proof {
            assert(rows_from(*self, rows as int) =~= Seq::<char>::empty());
            assert(out@ + rows_from(*self, rows as int) =~= out@);
            assert(out@ =~= spec_grid(*self));
        }
        out
    }
}

/// The horizontal rule under a line of cells, per [`rule_from`].
fn horizontal_rule(t: &Table, widths: &Vec<usize>) -> (r: String)
    requires
        widths@.len() == t.spec_attrs().len(),
        forall|k: int| 0 <= k < widths@.len() ==> #[trigger] widths@[k] as int == spec_width(*t, k),
    ensures
        r@ == rule_from(*t, 0),
{
    let mut r = String::new();
    let n = widths.len();
    proof {
        assert(Seq::<char>::empty() + rule_from(*t, 0) =~= rule_from(*t, 0));
    }
    let mut i: usize = 0;
    while i < n
        invariant
            n == widths@.len(),
            n == t.spec_attrs().len(),
            forall|k: int| 0 <= k < n ==> #[trigger] widths@[k] as int == spec_width(*t, k),
            i <= n,
            r@ + rule_from(*t, i as int) == rule_from(*t, 0),
        decreases n - i,
    {
        let w = widths[i];
        r.append(repeat_char('_', w + 1).as_str());
        proof {
            assert(rule_from(*t, i as int) == spec_repeat('_', spec_width(*t, i as int) + 1)
                + rule_from(*t, i as int + 1));
            assert(r@ + rule_from(*t, i as int + 1) =~= rule_from(*t, 0));
        }
        i += 1;
    }
    proof {
        assert(rule_from(*t, n as int) =~= Seq::<char>::empty());
        assert(r@ + rule_from(*t, n as int) =~= r@);
        assert(r@ =~= rule_from(*t, 0));
    }
    r
}

} // verus!
