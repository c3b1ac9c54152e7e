//! The scalar value type shared by every layer of the store.

use vstd::prelude::*;

verus! {

broadcast use vstd::utf8::char_u32_cast;

/// A tagged scalar.  It is both the content of a table cell and the key
/// that identifies a column, so it carries a total order (see
/// [`data_lt`]): variants are ranked `Text < Character < Integer <
/// Boolean < Blob`, and two values of the same variant compare by the
/// natural order of their content.
pub enum Data {
    /// String of characters.
    Text(String),
    /// Single character.
    Character(char),
    /// Signed 64-bit integer.
    Integer(i64),
    /// True or false.
    Boolean(bool),
    /// Sequence of raw bytes.
    Blob(Vec<u8>),
}

/// The mathematical shape of a [`Data`] value: the same five variants
/// over `Seq` and `int` instead of `String`, `i64` and `Vec`.
pub enum DataModel {
    Text(Seq<char>),
    Character(char),
    Integer(int),
    Boolean(bool),
    Blob(Seq<u8>),
}

impl View for Data {
    type V = DataModel;

    open spec fn view(&self) -> DataModel {
        match self {
            Data::Text(s) => DataModel::Text(s@),
            Data::Character(c) => DataModel::Character(*c),
            Data::Integer(i) => DataModel::Integer(*i as int),
            Data::Boolean(b) => DataModel::Boolean(*b),
            Data::Blob(bytes) => DataModel::Blob(bytes@),
        }
    }
}

impl DeepView for Data {
    type V = DataModel;

    open spec fn deep_view(&self) -> DataModel {
        self.view()
    }
}

/// Position of a variant in the fixed variant order.
pub open spec fn rank(d: DataModel) -> int {
    match d {
        DataModel::Text(_) => 0,
        DataModel::Character(_) => 1,
        DataModel::Integer(_) => 2,
        DataModel::Boolean(_) => 3,
        DataModel::Blob(_) => 4,
    }
}

/// Lexicographic order on character sequences, by code point.
pub open spec fn chars_lt(a: Seq<char>, b: Seq<char>) -> bool
    decreases a.len() + b.len(),
{
    if b.len() == 0 {
        false
    } else if a.len() == 0 {
        true
    } else if a[0] != b[0] {
        (a[0] as u32) < (b[0] as u32)
    } else {
        chars_lt(a.drop_first(), b.drop_first())
    }
}

/// Lexicographic order on byte sequences.
pub open spec fn bytes_lt(a: Seq<u8>, b: Seq<u8>) -> bool
    decreases a.len() + b.len(),
{
    if b.len() == 0 {
        false
    } else if a.len() == 0 {
        true
    } else if a[0] != b[0] {
        a[0] < b[0]
    } else {
        bytes_lt(a.drop_first(), b.drop_first())
    }
}

/// The total order on values: variants compare by [`rank`], two values
/// of the same variant by the natural order of their content.
pub open spec fn data_lt(a: DataModel, b: DataModel) -> bool {
    if rank(a) != rank(b) {
        rank(a) < rank(b)
    } else {
        match (a, b) {
            (DataModel::Text(x), DataModel::Text(y)) => chars_lt(x, y),
            (DataModel::Character(x), DataModel::Character(y)) => (x as u32) < (y as u32),
            (DataModel::Integer(x), DataModel::Integer(y)) => x < y,
            (DataModel::Boolean(x), DataModel::Boolean(y)) => !x && y,
            (DataModel::Blob(x), DataModel::Blob(y)) => bytes_lt(x, y),
            _ => false,
        }
    }
}

proof fn lemma_chars_lt_trichotomy(a: Seq<char>, b: Seq<char>)
    ensures
        chars_lt(a, b) || chars_lt(b, a) || a == b,
        chars_lt(a, b) ==> !chars_lt(b, a),
        chars_lt(a, b) ==> a != b,
    decreases a.len() + b.len(),
{
    if b.len() == 0 {
        if a.len() == 0 {
            assert(a =~= b);
        }
    } else if a.len() == 0 {
    } else if a[0] == b[0] {
        lemma_chars_lt_trichotomy(a.drop_first(), b.drop_first());
        if a.drop_first() == b.drop_first() {
            assert(a =~= b) by {
                assert forall|i: int| 0 <= i < a.len() implies a[i] == b[i] by {
                    if i > 0 {
                        assert(a[i] == a.drop_first()[i - 1]);
                        assert(b[i] == b.drop_first()[i - 1]);
                    }
                }
            }
        }
        if a == b {
            assert(a.drop_first() =~= b.drop_first());
        }
    } else {
        if a[0] as u32 == b[0] as u32 {
            vstd::utf8::char_u32_cast(a[0], a[0] as u32);
            vstd::utf8::char_u32_cast(b[0], b[0] as u32);
            assert(a[0] == b[0]);
            assert(false);
        }
    }
}

proof fn lemma_chars_lt_trans(a: Seq<char>, b: Seq<char>, c: Seq<char>)
    requires
        chars_lt(a, b),
        chars_lt(b, c),
    ensures
        chars_lt(a, c),
    decreases a.len() + b.len() + c.len(),
{
    if a.len() == 0 {
    } else if b.len() > 0 && c.len() > 0 {
        if a[0] == b[0] && b[0] == c[0] {
            lemma_chars_lt_trans(a.drop_first(), b.drop_first(), c.drop_first());
        }
    }
}

proof fn lemma_bytes_lt_trichotomy(a: Seq<u8>, b: Seq<u8>)
    ensures
        bytes_lt(a, b) || bytes_lt(b, a) || a == b,
        bytes_lt(a, b) ==> !bytes_lt(b, a),
        bytes_lt(a, b) ==> a != b,
    decreases a.len() + b.len(),
{
    if b.len() == 0 {
        if a.len() == 0 {
            assert(a =~= b);
        }
    } else if a.len() == 0 {
    } else if a[0] == b[0] {
        lemma_bytes_lt_trichotomy(a.drop_first(), b.drop_first());
        if a.drop_first() == b.drop_first() {
            assert(a =~= b) by {
                assert forall|i: int| 0 <= i < a.len() implies a[i] == b[i] by {
                    if i > 0 {
                        assert(a[i] == a.drop_first()[i - 1]);
                        assert(b[i] == b.drop_first()[i - 1]);
                    }
                }
            }
        }
        if a == b {
            assert(a.drop_first() =~= b.drop_first());
        }
    }
}

proof fn lemma_bytes_lt_trans(a: Seq<u8>, b: Seq<u8>, c: Seq<u8>)
    requires
        bytes_lt(a, b),
        bytes_lt(b, c),
    ensures
        bytes_lt(a, c),
    decreases a.len() + b.len() + c.len(),
{
    if a.len() == 0 {
    } else if b.len() > 0 && c.len() > 0 {
        if a[0] == b[0] && b[0] == c[0] {
            lemma_bytes_lt_trans(a.drop_first(), b.drop_first(), c.drop_first());
        }
    }
}

/// `data_lt` is a strict total order: any two values are either equal or
/// ordered one way, and never both.
pub proof fn lemma_data_lt_trichotomy(a: DataModel, b: DataModel)
    ensures
        data_lt(a, b) || data_lt(b, a) || a == b,
        data_lt(a, b) ==> !data_lt(b, a),
        data_lt(a, b) ==> a != b,
{
    match (a, b) {
        (DataModel::Text(x), DataModel::Text(y)) => lemma_chars_lt_trichotomy(x, y),
        (DataModel::Blob(x), DataModel::Blob(y)) => lemma_bytes_lt_trichotomy(x, y),
        _ => (),
    }
}

/// `data_lt` is transitive.
pub proof fn lemma_data_lt_trans(a: DataModel, b: DataModel, c: DataModel)
    requires
        data_lt(a, b),
        data_lt(b, c),
    ensures
        data_lt(a, c),
{
    match (a, b) {
        (DataModel::Text(x), DataModel::Text(y)) => {
            if let DataModel::Text(z) = c {
                lemma_chars_lt_trans(x, y, z);
            }
        },
        (DataModel::Blob(x), DataModel::Blob(y)) => {
            if let DataModel::Blob(z) = c {
                lemma_bytes_lt_trans(x, y, z);
            }
        },
        _ => (),
    }
}

impl Clone for Data {
    /// Cloning preserves the value's model.
    fn clone(&self) -> (r: Data)
        ensures
            r@ == self@,
    {
        match self {
            Data::Text(s) => Data::Text(s.clone()),
            Data::Character(c) => Data::Character(*c),
            Data::Integer(i) => Data::Integer(*i),
            Data::Boolean(b) => Data::Boolean(*b),
            Data::Blob(bytes) => Data::Blob(copy_bytes(bytes)),
        }
    }
}

fn copy_bytes(v: &Vec<u8>) -> (r: Vec<u8>)
    ensures
        r@ == v@,
{
    let n = v.len();
    let mut r: Vec<u8> = Vec::new();
    let mut i: usize = 0;
    while i < n
        invariant
            n == v@.len(),
            i <= n,
            r@ == v@.take(i as int),
        decreases n - i,
    {
        r.push(v[i]);
        proof {
            assert(v@.take(i as int).push(v@[i as int]) =~= v@.take(i as int + 1));
        }
        i += 1;
    }
    proof {
        assert(v@.take(n as int) =~= v@);
    }
    r
}

impl From<char> for Data {
    /// A character value.
    fn from(value: char) -> (r: Data)
        ensures
            r@ == DataModel::Character(value),
    {
        Data::Character(value)
    }
}

impl vstd::std_specs::convert::FromSpecImpl<char> for Data {
    open spec fn obeys_from_spec() -> bool {
        false
    }

    open spec fn from_spec(value: char) -> Data {
        Data::Character(value)
    }
}

impl From<i64> for Data {
    /// An integer value.
    fn from(value: i64) -> (r: Data)
        ensures
            r@ == DataModel::Integer(value as int),
    {
        Data::Integer(value)
    }
}

impl vstd::std_specs::convert::FromSpecImpl<i64> for Data {
    open spec fn obeys_from_spec() -> bool {
        false
    }

    open spec fn from_spec(value: i64) -> Data {
        Data::Integer(value)
    }
}

impl From<bool> for Data {
    /// A boolean value.
    fn from(value: bool) -> (r: Data)
        ensures
            r@ == DataModel::Boolean(value),
    {
        Data::Boolean(value)
    }
}

impl vstd::std_specs::convert::FromSpecImpl<bool> for Data {
    open spec fn obeys_from_spec() -> bool {
        false
    }

    open spec fn from_spec(value: bool) -> Data {
        Data::Boolean(value)
    }
}

impl From<&str> for Data {
    /// A text value.
    fn from(value: &str) -> (r: Data)
        ensures
            r@ == DataModel::Text(value@),
    {
        Data::Text(value.to_owned())
    }
}

impl vstd::std_specs::convert::FromSpecImpl<&str> for Data {
    open spec fn obeys_from_spec() -> bool {
        false
    }

    open spec fn from_spec(value: &str) -> Data {
        vstd::pervasive::arbitrary()
    }
}

impl From<String> for Data {
    /// A text value.
    fn from(value: String) -> (r: Data)
        ensures
            r@ == DataModel::Text(value@),
    {
        Data::Text(value)
    }
}

impl vstd::std_specs::convert::FromSpecImpl<String> for Data {
    open spec fn obeys_from_spec() -> bool {
        false
    }

    open spec fn from_spec(value: String) -> Data {
        Data::Text(value)
    }
}

impl From<Vec<u8>> for Data {
    /// A blob value.
    fn from(value: Vec<u8>) -> (r: Data)
        ensures
            r@ == DataModel::Blob(value@),
    {
        Data::Blob(value)
    }
}

impl vstd::std_specs::convert::FromSpecImpl<Vec<u8>> for Data {
    open spec fn obeys_from_spec() -> bool {
        false
    }

    open spec fn from_spec(value: Vec<u8>) -> Data {
        Data::Blob(value)
    }
}

/// Whether `c` is an ASCII decimal digit.
pub open spec fn is_digit(c: char) -> bool {
    48 <= c as u32 <= 57
}

/// Numeric value of an ASCII decimal digit.
pub open spec fn digit_val(c: char) -> int {
    c as u32 - 48
}

/// Whether every character of `s` is an ASCII decimal digit.
pub open spec fn all_digits(s: Seq<char>) -> bool {
    forall|i: int| 0 <= i < s.len() ==> is_digit(#[trigger] s[i])
}

/// The number denoted by a sequence of decimal digits, most significant
/// first.
pub open spec fn digits_val(s: Seq<char>) -> int
    decreases s.len(),
{
    if s.len() == 0 {
        0
    } else {
        digits_val(s.drop_last()) * 10 + digit_val(s.last())
    }
}

/// The digits of an integer token: everything after an optional leading
/// sign.
pub open spec fn int_body(s: Seq<char>) -> Seq<char> {
    if s.len() > 0 && (s[0] == '+' || s[0] == '-') {
        s.drop_first()
    } else {
        s
    }
}

/// The sign denoted by an integer token's optional leading sign.
pub open spec fn int_sign(s: Seq<char>) -> int {
    if s.len() > 0 && s[0] == '-' {
        -1
    } else {
        1
    }
}

/// Whether `s` has the shape of a decimal integer: an optional sign
/// followed by one or more digits.
pub open spec fn is_int_shape(s: Seq<char>) -> bool {
    int_body(s).len() > 0 && all_digits(int_body(s))
}

/// The integer denoted by a sequence of integer shape.
pub open spec fn int_val(s: Seq<char>) -> int {
    int_sign(s) * digits_val(int_body(s))
}

/// Whether `s` denotes an integer representable as an `i64`.
pub open spec fn is_i64_token(s: Seq<char>) -> bool {
    is_int_shape(s) && i64::MIN <= int_val(s) <= i64::MAX
}

/// The value a raw token denotes.  Parses are attempted in the fixed
/// precedence integer, then character, then boolean; a token that fits
/// none of them is text.  A single digit is an integer, not a character.
pub open spec fn infer(s: Seq<char>) -> DataModel {
    if is_i64_token(s) {
        DataModel::Integer(int_val(s))
    } else if s.len() == 1 {
        DataModel::Character(s[0])
    } else if s =~= seq!['t', 'r', 'u', 'e'] {
        DataModel::Boolean(true)
    } else if s =~= seq!['f', 'a', 'l', 's', 'e'] {
        DataModel::Boolean(false)
    } else {
        DataModel::Text(s)
    }
}

pub proof fn lemma_digits_val_nonneg(s: Seq<char>)
    requires
        all_digits(s),
    ensures
        digits_val(s) >= 0,
    decreases s.len(),
{
    if s.len() > 0 {
        assert(all_digits(s.drop_last()));
        lemma_digits_val_nonneg(s.drop_last());
    }
}

proof fn lemma_digits_val_push(s: Seq<char>, c: char)
    ensures
        digits_val(s.push(c)) == digits_val(s) * 10 + digit_val(c),
{
    assert(s.push(c).drop_last() =~= s);
    assert(s.push(c).last() == c);
}

impl Data {
    /// Coerces a raw token to the value it denotes, per [`infer`]:
    /// first try a 64-bit integer, then a single character, then a
    /// boolean, and fall back to text.
    pub fn convert_to_correct_data_from_str(s: &str) -> (r: Data)
        ensures
            r@ == infer(s@),
    {
        let n = s.unicode_len();
        if let Some(v) = try_parse_i64(s, n) {
            return Data::Integer(v);
        }
        if n == 1 {
            return Data::Character(s.get_char(0));
        }
        if is_literal_true(s, n) {
            return Data::Boolean(true);
        }
        if is_literal_false(s, n) {
            return Data::Boolean(false);
        }
        Data::Text(s.to_owned())
    }
}

/// Decides whether `s` is exactly the token `true`.
fn is_literal_true(s: &str, n: usize) -> (r: bool)
    requires
        n == s@.len(),
    ensures
        r == (s@ =~= seq!['t', 'r', 'u', 'e']),
{
    if n != 4 {
        return false;
    }
    let r = s.get_char(0) == 't' && s.get_char(1) == 'r' && s.get_char(2) == 'u'
        && s.get_char(3) == 'e';
    proof {
        if r {
            assert(s@ =~= seq!['t', 'r', 'u', 'e']);
        }
    }
    r
}

/// Decides whether `s` is exactly the token `false`.
fn is_literal_false(s: &str, n: usize) -> (r: bool)
    requires
        n == s@.len(),
    ensures
        r == (s@ =~= seq!['f', 'a', 'l', 's', 'e']),
{
    if n != 5 {
        return false;
    }
    let r = s.get_char(0) == 'f' && s.get_char(1) == 'a' && s.get_char(2) == 'l'
        && s.get_char(3) == 's' && s.get_char(4) == 'e';
    proof {
        if r {
            assert(s@ =~= seq!['f', 'a', 'l', 's', 'e']);
        }
    }
    r
}

/// Parses `s` as a decimal `i64` token, or reports that it is none.
fn try_parse_i64(s: &str, n: usize) -> (r: Option<i64>)
    requires
        n == s@.len(),
    ensures
        match r {
            Some(v) => is_i64_token(s@) && v as int == int_val(s@),
            None => !is_i64_token(s@),
        },
{
    if n == 0 {
        return None;
    }
    let c0 = s.get_char(0);
    let neg = c0 == '-';
    let start: usize = if c0 == '-' || c0 == '+' {
        1
    } else {
        0
    };
    proof {
        assert(int_body(s@) =~= s@.subrange(start as int, n as int));
    }
    if start == n {
        return None;
    }
    let mut acc: u64 = 0;
    let mut over = false;
    let mut i = start;
    while i < n
        invariant
            n == s@.len(),
            start <= i <= n,
            start < n,
            int_body(s@) == s@.subrange(start as int, n as int),
            all_digits(s@.subrange(start as int, i as int)),
            !over ==> acc as int == digits_val(s@.subrange(start as int, i as int)),
            over ==> digits_val(s@.subrange(start as int, i as int)) > u64::MAX as int,
        decreases n - i,
    {
        let c = s.get_char(i);
        let u = c as u32;
        if u < 48 || u > 57 {
            proof {
                assert(int_body(s@) =~= s@.subrange(start as int, n as int));
                assert(s@.subrange(start as int, n as int)[i - start] == s@[i as int]);
                assert(!is_digit(s@[i as int]));
            }
            return None;
        }
        let d = (u - 48) as u64;
        let ghost pre = s@.subrange(start as int, i as int);
        proof {
            assert(pre.push(s@[i as int]) =~= s@.subrange(start as int, i as int + 1));
            lemma_digits_val_push(pre, s@[i as int]);
            if over {
                lemma_digits_val_nonneg(pre);
            }
        }
        if !over {
            let mul = acc.checked_mul(10);
            match mul {
                Some(x) => {
                    match x.checked_add(d) {
                        Some(y) => {
                            acc = y;
                        },
                        None => {
                            over = true;
                        },
                    }
                },
                None => {
                    over = true;
                },
            }
        }
        i += 1;
    }
    proof {
        assert(int_body(s@) =~= s@.subrange(start as int, n as int));
        assert(is_int_shape(s@));
        if !neg {
            assert(int_val(s@) == digits_val(int_body(s@)));
        } else {
            assert(int_val(s@) == -1 * digits_val(int_body(s@)));
        }
    }
    if over {
        return None;
    }
    if neg {
        if acc <= 9223372036854775807u64 {
            Some(-(acc as i64))
        } else if acc == 9223372036854775808u64 {
            Some(i64::MIN)
        } else {
            None
        }
    } else {
        if acc <= 9223372036854775807u64 {
            Some(acc as i64)
        } else {
            None
        }
    }
}

/// Structural equality of two values, decided executably.
pub fn data_eq(a: &Data, b: &Data) -> (r: bool)
    ensures
        r == (a@ == b@),
{
    match (a, b) {
        (Data::Text(x), Data::Text(y)) => *x == *y,
        (Data::Character(x), Data::Character(y)) => *x == *y,
        (Data::Integer(x), Data::Integer(y)) => *x == *y,
        (Data::Boolean(x), Data::Boolean(y)) => *x == *y,
        (Data::Blob(x), Data::Blob(y)) => bytes_eq(x, y),
        (Data::Text(_), _) => false,
        (_, Data::Text(_)) => false,
        (Data::Character(_), _) => false,
        (_, Data::Character(_)) => false,
        (Data::Integer(_), _) => false,
        (_, Data::Integer(_)) => false,
        (Data::Boolean(_), _) => false,
        (_, Data::Boolean(_)) => false,
    }
}

/// Decides the [`data_lt`] order executably.
pub fn data_lt_exec(a: &Data, b: &Data) -> (r: bool)
    ensures
        r == data_lt(a@, b@),
{
    match (a, b) {
        (Data::Text(x), Data::Text(y)) => str_lt_exec(x.as_str(), y.as_str()),
        (Data::Character(x), Data::Character(y)) => (*x as u32) < (*y as u32),
        (Data::Integer(x), Data::Integer(y)) => *x < *y,
        (Data::Boolean(x), Data::Boolean(y)) => !*x && *y,
        (Data::Blob(x), Data::Blob(y)) => bytes_lt_exec(x, y),
        (Data::Text(_), _) => true,
        (_, Data::Text(_)) => false,
        (Data::Character(_), _) => true,
        (_, Data::Character(_)) => false,
        (Data::Integer(_), _) => true,
        (_, Data::Integer(_)) => false,
        (Data::Boolean(_), _) => true,
        (_, Data::Boolean(_)) => false,
    }
}

fn str_lt_exec(a: &str, b: &str) -> (r: bool)
    ensures
        r == chars_lt(a@, b@),
{
    let alen = a.unicode_len();
    let blen = b.unicode_len();
    let r = str_lt_from(a, b, 0, alen, blen);
    proof {
        assert(a@.skip(0) =~= a@);
        assert(b@.skip(0) =~= b@);
    }
    r
}

fn str_lt_from(a: &str, b: &str, i: usize, alen: usize, blen: usize) -> (r: bool)
    requires
        alen == a@.len(),
        blen == b@.len(),
        i <= alen,
        i <= blen,
    ensures
        r == chars_lt(a@.skip(i as int), b@.skip(i as int)),
    decreases alen - i,
{
    if i == blen {
        false
    } else if i == alen {
        true
    } else {
        let ca = a.get_char(i);
        let cb = b.get_char(i);
        if ca != cb {
            (ca as u32) < (cb as u32)
        } else {
            let r = str_lt_from(a, b, i + 1, alen, blen);
            proof {
                assert(a@.skip(i as int).drop_first() =~= a@.skip(i as int + 1));
                assert(b@.skip(i as int).drop_first() =~= b@.skip(i as int + 1));
            }
            r
        }
    }
}

fn bytes_lt_exec(a: &Vec<u8>, b: &Vec<u8>) -> (r: bool)
    ensures
        r == bytes_lt(a@, b@),
{
    let r = bytes_lt_from(a, b, 0);
    proof {
        assert(a@.skip(0) =~= a@);
        assert(b@.skip(0) =~= b@);
    }
    r
}

fn bytes_lt_from(a: &Vec<u8>, b: &Vec<u8>, i: usize) -> (r: bool)
    requires
        i <= a@.len(),
        i <= b@.len(),
    ensures
        r == bytes_lt(a@.skip(i as int), b@.skip(i as int)),
    decreases a@.len() - i,
{
    if i == b.len() {
        false
    } else if i == a.len() {
        true
    } else {
        let ca = a[i];
        let cb = b[i];
        if ca != cb {
            ca < cb
        } else {
            let r = bytes_lt_from(a, b, i + 1);
            proof {
                assert(a@.skip(i as int).drop_first() =~= a@.skip(i as int + 1));
                assert(b@.skip(i as int).drop_first() =~= b@.skip(i as int + 1));
            }
            r
        }
    }
}

fn bytes_eq(a: &Vec<u8>, b: &Vec<u8>) -> (r: bool)
    ensures
        r == (a@ == b@),
{
    if a.len() != b.len() {
        assert(a@ != b@) by {
            assert(a@.len() != b@.len());
        }
        return false;
    }
    let n = a.len();
    let mut i: usize = 0;
    while i < n
        invariant
            n == a@.len() == b@.len(),
            i <= n,
            forall|j: int| 0 <= j < i ==> a@[j] == b@[j],
        decreases n - i,
    {
        if a[i] != b[i] {
            return false;
        }
        i += 1;
    }
    proof {
        assert(a@ =~= b@);
    }
    true
}

} // verus!
