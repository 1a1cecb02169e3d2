//! Character-level operations on strings, stated over their views.
use vstd::prelude::*;
use vstd::string::*;
use vstd::utf8::*;

verus! {

/// A value that gives a text: a string slice or an owned string.
pub trait IntoText: Sized {
    /// The text that the value gives.
    spec fn text(&self) -> Seq<char>;

    /// The owned string of that text.
    fn into_text(self) -> (owned: String)
        ensures
            owned@ == self.text(),
    ;
}

impl<'a> IntoText for &'a str {
    open spec fn text(&self) -> Seq<char> {
        (*self)@
    }

    fn into_text(self) -> (owned: String) {
        self.to_owned()
    }
}

impl<'a> IntoText for &'a String {
    open spec fn text(&self) -> Seq<char> {
        (**self)@
    }

    fn into_text(self) -> (owned: String) {
        self.clone()
    }
}

impl IntoText for String {
    open spec fn text(&self) -> Seq<char> {
        self@
    }

    fn into_text(self) -> (owned: String) {
        self
    }
}

/// `p` is a prefix of `s`.
pub open spec fn starts_with(s: Seq<char>, p: Seq<char>) -> bool {
    p.len() <= s.len() && s.take(p.len() as int) == p
}

/// `pat` stands in `s` at position `i`.
pub open spec fn occurs_at(s: Seq<char>, pat: Seq<char>, i: int) -> bool {
    0 <= i && i + pat.len() <= s.len() && s.subrange(i, i + pat.len()) == pat
}

/// `pat` is a contiguous part of `s`.
pub open spec fn occurs_in(s: Seq<char>, pat: Seq<char>) -> bool {
    exists|i: int| occurs_at(s, pat, i)
}

/// `i` is the position of the first `=` of `s`.
pub open spec fn is_first_eq(s: Seq<char>, i: int) -> bool {
    &&& 0 <= i < s.len()
    &&& s[i] == '='
    &&& forall|j: int| 0 <= j < i ==> s[j] != '='
}

/// The position of the first `=` of `s`, where it has one.
pub open spec fn eq_index(s: Seq<char>) -> int {
    choose|i: int| is_first_eq(s, i)
}

/// The field name of a raw data item `NAME=value`: what precedes its first
/// `=`, or the whole item where it has none.
pub open spec fn name_part(raw: Seq<char>) -> Seq<char> {
    if raw.contains('=') {
        raw.take(eq_index(raw))
    } else {
        raw
    }
}

/// The value of a raw data item `NAME=value`: what follows its first `=`, or
/// the whole item where it has none.
pub open spec fn value_part(raw: Seq<char>) -> Seq<char> {
    if raw.contains('=') {
        raw.skip(eq_index(raw) + 1)
    } else {
        raw
    }
}

/// The raw data item that pairs a field name with a value.
pub open spec fn raw_item(field: Seq<char>, value: Seq<char>) -> Seq<char> {
    field + seq!['='] + value
}

/// Strict lexicographic order by code point. On UTF-8 text this is the order
/// of the encoded bytes.
pub open spec fn lex_lt(a: Seq<char>, b: Seq<char>) -> bool
    decreases a.len(),
{
    if b.len() == 0 {
        false
    } else if a.len() == 0 {
        true
    } else if a[0] != b[0] {
        a[0] < b[0]
    } else {
        lex_lt(a.drop_first(), b.drop_first())
    }
}

/// The number of bytes of the UTF-8 encoding of `s`.
pub open spec fn byte_len(s: Seq<char>) -> nat {
    encode_utf8(s).len()
}

/// A sequence has at most one first `=`.
pub proof fn lemma_first_eq_unique(s: Seq<char>, i: int, j: int)
    requires
        is_first_eq(s, i),
        is_first_eq(s, j),
    ensures
        i == j,
{
    if i < j {
        assert(s[i] != '=');
    } else if j < i {
        assert(s[j] != '=');
    }
}

/// A known first `=` fixes the name and the value of a raw item.
pub proof fn lemma_parts_at(s: Seq<char>, i: int)
    requires
        is_first_eq(s, i),
    ensures
        s.contains('='),
        eq_index(s) == i,
        name_part(s) == s.take(i),
        value_part(s) == s.skip(i + 1),
{
    assert(s.contains('='));
    lemma_first_eq_unique(s, i, eq_index(s));
}

/// A raw item built from a name without `=` splits back into its parts.
pub proof fn lemma_raw_item_parts(field: Seq<char>, value: Seq<char>)
    requires
        !field.contains('='),
    ensures
        name_part(raw_item(field, value)) == field,
        value_part(raw_item(field, value)) == value,
{
    let raw = raw_item(field, value);
    let i = field.len() as int;
    assert(raw[i] == '=');
    assert forall|j: int| 0 <= j < i implies raw[j] != '=' by {
        assert(raw[j] == field[j]);
        assert(field.contains(field[j]));
    }
    lemma_parts_at(raw, i);
    assert(raw.take(i) =~= field);
    assert(raw.skip(i + 1) =~= value);
}

/// The encoding of a concatenation is the concatenation of the encodings.
pub proof fn lemma_encode_concat(a: Seq<char>, b: Seq<char>)
    ensures
        encode_utf8(a + b) == encode_utf8(a) + encode_utf8(b),
    decreases a.len(),
{
    if a.len() == 0 {
        assert(a + b =~= b);
        assert(encode_utf8(a) + encode_utf8(b) =~= encode_utf8(b));
    } else {
        assert((a + b).drop_first() =~= a.drop_first() + b);
        lemma_encode_concat(a.drop_first(), b);
        assert(encode_utf8(a + b) =~= encode_utf8(a) + encode_utf8(b));
    }
}

/// Nothing precedes itself.
pub proof fn lemma_lex_irreflexive(a: Seq<char>)
    ensures
        !lex_lt(a, a),
    decreases a.len(),
{
    if a.len() > 0 {
        lemma_lex_irreflexive(a.drop_first());
    }
}

/// Of two different sequences exactly one precedes the other.
pub proof fn lemma_lex_total(a: Seq<char>, b: Seq<char>)
    ensures
        a != b ==> (lex_lt(a, b) || lex_lt(b, a)),
        !(lex_lt(a, b) && lex_lt(b, a)),
    decreases a.len(),
{
    if a.len() == 0 || b.len() == 0 {
        if a.len() == 0 && b.len() == 0 {
            assert(a =~= b);
        }
    } else if a[0] != b[0] {
    } else {
        lemma_lex_total(a.drop_first(), b.drop_first());
        if a.drop_first() == b.drop_first() {
            assert(a =~= seq![a[0]] + a.drop_first());
            assert(b =~= seq![b[0]] + b.drop_first());
        }
    }
}

/// The order is transitive.
pub proof fn lemma_lex_transitive(a: Seq<char>, b: Seq<char>, c: Seq<char>)
    requires
        lex_lt(a, b),
        lex_lt(b, c),
    ensures
        lex_lt(a, c),
    decreases a.len(),
{
    if a.len() > 0 && a[0] == b[0] && b[0] == c[0] {
        lemma_lex_transitive(a.drop_first(), b.drop_first(), c.drop_first());
    }
}

/// The characters of a string, in order.
pub fn to_chars(s: &str) -> (out: Vec<char>)
    ensures
        out@ == s@,
{
    let mut out: Vec<char> = Vec::new();
    for c in it: s.chars()
        invariant
            it.seq() == s@,
            out@ == it.seq().take(it.index()),
    {
        out.push(c);
    }
    out
}

/// Whether a string holds the character NUL, which no native string can carry.
pub fn has_nul(s: &str) -> (found: bool)
    ensures
        found == s@.contains('\0'),
{
    let chars = to_chars(s);
    let mut i: usize = 0;
    while i < chars.len()
        invariant
            i <= chars.len(),
            chars@ == s@,
            forall|j: int| 0 <= j < i ==> chars@[j] != '\0',
        decreases chars.len() - i,
    {
        if chars[i] == '\0' {
            assert(s@[i as int] == '\0');
            return true;
        }
        i += 1;
    }
    false
}

/// Whether `pat` stands in `s` at position `at`.
pub fn matches_at(s: &Vec<char>, pat: &Vec<char>, at: usize) -> (found: bool)
    requires
        at + pat.len() <= s.len(),
    ensures
        found == occurs_at(s@, pat@, at as int),
{
    let mut i: usize = 0;
    while i < pat.len()
        invariant
            i <= pat.len(),
            at + pat.len() <= s.len(),
            forall|j: int| 0 <= j < i ==> s@[at + j] == pat@[j],
        decreases pat.len() - i,
    {
        if s[at + i] != pat[i] {
            assert(s@.subrange(at as int, at + pat.len())[i as int] == s@[at + i]);
            return false;
        }
        i += 1;
    }
    assert(s@.subrange(at as int, at + pat.len()) =~= pat@);
    true
}

/// Whether `s` begins with `prefix`.
pub fn has_prefix(s: &str, prefix: &str) -> (found: bool)
    ensures
        found == starts_with(s@, prefix@),
{
    let chars = to_chars(s);
    let head = to_chars(prefix);
    if head.len() > chars.len() {
        return false;
    }
    let found = matches_at(&chars, &head, 0);
    assert(s@.subrange(0, 0 + prefix@.len() as int) =~= s@.take(prefix@.len() as int));
    found
}

/// What is left of `s` after the prefix `prefix`, or `None` where `s` does
/// not begin with it.
pub fn strip_prefix(s: &str, prefix: &str) -> (rest: Option<String>)
    ensures
        rest is Some <==> starts_with(s@, prefix@),
        rest is Some ==> rest->0@ == s@.skip(prefix@.len() as int),
{
    let chars = to_chars(s);
    let head = to_chars(prefix);
    if head.len() > chars.len() {
        return None;
    }
    assert(s@.subrange(0, 0 + prefix@.len() as int) =~= s@.take(prefix@.len() as int));
    if matches_at(&chars, &head, 0) {
        let tail = s.substring_char(head.len(), chars.len());
        assert(s@.subrange(head.len() as int, chars.len() as int) =~= s@.skip(
            prefix@.len() as int,
        ));
        Some(tail.to_owned())
    } else {
        None
    }
}

/// Whether `pat` is a contiguous part of `s`, case and all.
pub fn contains(s: &str, pat: &str) -> (found: bool)
    ensures
        found == occurs_in(s@, pat@),
{
    let chars = to_chars(s);
    let needle = to_chars(pat);
    if needle.len() > chars.len() {
        return false;
    }
    let last: usize = chars.len() - needle.len();
    let mut i: usize = 0;
    loop
        invariant
            i <= last,
            last == chars.len() - needle.len(),
            needle.len() <= chars.len(),
            chars@ == s@,
            needle@ == pat@,
            forall|j: int| 0 <= j < i ==> !occurs_at(s@, pat@, j),
        decreases last - i,
    {
        if matches_at(&chars, &needle, i) {
            return true;
        }
        if i == last {
            return false;
        }
        i += 1;
    }
}

/// The position of the first `=` in `s`.
pub fn find_eq(s: &Vec<char>) -> (at: Option<usize>)
    ensures
        at is Some <==> s@.contains('='),
        at is Some ==> is_first_eq(s@, at->0 as int),
{
    let mut i: usize = 0;
    while i < s.len()
        invariant
            i <= s.len(),
            forall|j: int| 0 <= j < i ==> s@[j] != '=',
        decreases s.len() - i,
    {
        if s[i] == '=' {
            return Some(i);
        }
        i += 1;
    }
    None
}

/// The value of a raw data item: what follows its first `=`, or the whole
/// item where it has none.
pub fn field_value(raw: &str) -> (value: String)
    ensures
        value@ == value_part(raw@),
{
    let chars = to_chars(raw);
    match find_eq(&chars) {
        Some(at) => {
            assert(at < chars.len());
            proof {
                lemma_parts_at(raw@, at as int);
            }
            let tail = raw.substring_char(at + 1, chars.len());
            assert(raw@.subrange(at + 1, chars.len() as int) =~= raw@.skip(at + 1));
            tail.to_owned()
        },
        None => raw.to_owned(),
    }
}

/// The field name of a raw data item: what precedes its first `=`, or the
/// whole item where it has none.
pub fn field_name(raw: &str) -> (name: String)
    ensures
        name@ == name_part(raw@),
{
    let chars = to_chars(raw);
    match find_eq(&chars) {
        Some(at) => {
            proof {
                lemma_parts_at(raw@, at as int);
            }
            let head = raw.substring_char(0, at);
            assert(raw@.subrange(0, at as int) =~= raw@.take(at as int));
            head.to_owned()
        },
        None => raw.to_owned(),
    }
}

/// The raw data item `field=value`. Its byte length is that of the field, one
/// for the `=`, and that of the value.
pub fn match_string(field: &str, value: &str) -> (raw: String)
    ensures
        raw@ == raw_item(field@, value@),
        raw@.len() == field@.len() + 1 + value@.len(),
        byte_len(raw@) == byte_len(field@) + 1 + byte_len(value@),
{
    let raw = String::from_str(field).concat("=").concat(value);
    proof {
        reveal_strlit("=");
        assert("="@ =~= seq!['=']);
        lemma_raw_item_length(field@, value@);
    }
    raw
}

/// A raw item is as long as its field, the `=` and its value together, in
/// characters and in bytes.
pub proof fn lemma_raw_item_length(field: Seq<char>, value: Seq<char>)
    ensures
        raw_item(field, value).len() == field.len() + 1 + value.len(),
        byte_len(raw_item(field, value)) == byte_len(field) + 1 + byte_len(value),
{
    let sign = seq!['='];
    assert(sign.drop_first() =~= Seq::<char>::empty());
    assert(encode_utf8(sign.drop_first()) =~= Seq::<u8>::empty());
    assert(has_width_1_encoding('=' as u32));
    assert(encode_utf8(sign) =~= encode_scalar(sign[0] as u32) + encode_utf8(sign.drop_first()));
    lemma_encode_concat(field, sign);
    lemma_encode_concat(field + sign, value);
}

/// Whether `a` precedes `b` in lexicographic order.
pub fn precedes(a: &str, b: &str) -> (less: bool)
    ensures
        less == lex_lt(a@, b@),
{
    let left = to_chars(a);
    let right = to_chars(b);
    let mut i: usize = 0;
    assert(left@.skip(0) =~= left@ && right@.skip(0) =~= right@);
    while i < left.len() && i < right.len()
        invariant
            i <= left.len(),
            i <= right.len(),
            left@ == a@,
            right@ == b@,
            lex_lt(a@, b@) == lex_lt(left@.skip(i as int), right@.skip(i as int)),
        decreases left.len() - i,
    {
        let x = left[i];
        let y = right[i];
        proof {
            assert(left@.skip(i as int).drop_first() =~= left@.skip(i + 1));
            assert(right@.skip(i as int).drop_first() =~= right@.skip(i + 1));
            assert(left@.skip(i as int)[0] == x);
            assert(right@.skip(i as int)[0] == y);
        }
        if x != y {
            return x < y;
        }
        i += 1;
    }
    i < right.len()
}

} // verus!
