//! The persisted form of the note list: a structured, self-describing text
//! with the field names `id`, `title`, `text`, `color` and `last_edited`,
//! one object per note, the whole list in square brackets.
//!
//! The encoder and the decoder are both verified against the same
//! specification-level grammar, so that decoding an encoded list yields the
//! very same notes, and every decodable text is the encoding of its result.

use vstd::prelude::*;
use vstd::string::StrSliceExecFns;
use crate::errors::NoteError;
use crate::note::{Color, Note, NoteView};

verus! {

// ---------------------------------------------------------------------------
// Decimal digits
// ---------------------------------------------------------------------------

/// The character for one decimal digit.
pub open spec fn digit_char(d: nat) -> char {
    if d == 0 { '0' }
    else if d == 1 { '1' }
    else if d == 2 { '2' }
    else if d == 3 { '3' }
    else if d == 4 { '4' }
    else if d == 5 { '5' }
    else if d == 6 { '6' }
    else if d == 7 { '7' }
    else if d == 8 { '8' }
    else { '9' }
}

/// Whether a character is a decimal digit.
pub open spec fn is_digit(c: char) -> bool {
    c == '0' || c == '1' || c == '2' || c == '3' || c == '4'
    || c == '5' || c == '6' || c == '7' || c == '8' || c == '9'
}

/// The value of one digit character.
pub open spec fn digit_val(c: char) -> nat {
    if c == '1' { 1 }
    else if c == '2' { 2 }
    else if c == '3' { 3 }
    else if c == '4' { 4 }
    else if c == '5' { 5 }
    else if c == '6' { 6 }
    else if c == '7' { 7 }
    else if c == '8' { 8 }
    else if c == '9' { 9 }
    else { 0 }
}

/// The decimal digits of `n`, most significant first, without leading zeros.
pub open spec fn dec_digits(n: nat) -> Seq<char>
    decreases n,
{
    if n < 10 {
        seq![digit_char(n)]
    } else {
        dec_digits(n / 10).push(digit_char(n % 10))
    }
}

/// The number a digit string denotes.
pub open spec fn digits_val(s: Seq<char>) -> nat
    decreases s.len(),
{
    if s.len() == 0 {
        0
    } else {
        digits_val(s.drop_last()) * 10 + digit_val(s.last())
    }
}

/// The digits of a number denote that number.
pub proof fn lemma_digits_val_of_dec(n: nat)
    ensures
        digits_val(dec_digits(n)) == n,
    decreases n,
{
    if n < 10 {
        let s = dec_digits(n);
        assert(s == seq![digit_char(n)]);
        assert(s.last() == digit_char(n));
        assert(s.drop_last() =~= Seq::<char>::empty());
        assert(digits_val(Seq::<char>::empty()) == 0);
        assert(digits_val(s) == digits_val(s.drop_last()) * 10 + digit_val(s.last()));
        assert(digit_val(digit_char(n)) == n);
    } else {
        lemma_digits_val_of_dec(n / 10);
        let s = dec_digits(n);
        assert(s.last() == digit_char(n % 10));
        assert(s.drop_last() =~= dec_digits(n / 10));
        assert(digits_val(s) == digits_val(s.drop_last()) * 10 + digit_val(s.last()));
        assert(digit_val(digit_char(n % 10)) == n % 10);
        vstd::arithmetic::div_mod::lemma_fundamental_div_mod(n as int, 10);
    }
}

/// Every character of `dec_digits(n)` is a digit, there is at least one,
/// and the first is not `'0'` unless it is the only one.
pub proof fn lemma_dec_digits_shape(n: nat)
    ensures
        dec_digits(n).len() >= 1,
        forall|i: int| 0 <= i < dec_digits(n).len() ==> is_digit(#[trigger] dec_digits(n)[i]),
        n > 0 ==> dec_digits(n)[0] != '0',
        n < 10 ==> dec_digits(n).len() == 1,
    decreases n,
{
    if n >= 10 {
        lemma_dec_digits_shape(n / 10);
    }
}

/// Dropping digits from the end can only lower the value.
pub proof fn lemma_digits_val_take(s: Seq<char>, i: int)
    requires
        0 <= i <= s.len(),
    ensures
        digits_val(s.take(i)) <= digits_val(s),
    decreases s.len(),
{
    if i < s.len() {
        assert(s.drop_last().take(i) =~= s.take(i));
        lemma_digits_val_take(s.drop_last(), i);
        assert(digits_val(s.drop_last()) * 10 >= digits_val(s.drop_last()));
    } else {
        assert(s.take(i) =~= s);
    }
}

/// A digit string with no leading zero is the canonical digits of its value.
pub proof fn lemma_canonical_digits(s: Seq<char>)
    requires
        s.len() >= 1,
        forall|i: int| 0 <= i < s.len() ==> is_digit(#[trigger] s[i]),
        s[0] != '0' || s.len() == 1,
    ensures
        dec_digits(digits_val(s)) == s,
        s[0] != '0' ==> digits_val(s) >= 1,
    decreases s.len(),
{
    if s.len() == 1 {
        assert(s.drop_last() =~= Seq::<char>::empty());
        assert(digits_val(Seq::<char>::empty()) == 0);
        assert(s.last() == s[0]);
        assert(digits_val(s) == digit_val(s[0]));
        assert(is_digit(s[0]));
        assert(digit_char(digit_val(s[0])) == s[0]);
        assert(dec_digits(digits_val(s)) =~= s);
    } else {
        let s0 = s.drop_last();
        lemma_canonical_digits(s0);
        let v = digits_val(s);
        let v0 = digits_val(s0);
        assert(v == v0 * 10 + digit_val(s.last()));
        assert(v0 >= 1);
        assert(v >= 10);
        assert(v / 10 == v0) by (nonlinear_arith)
            requires
                v == v0 * 10 + digit_val(s.last()),
                digit_val(s.last()) < 10,
        ;
        assert(v % 10 == digit_val(s.last())) by (nonlinear_arith)
            requires
                v == v0 * 10 + digit_val(s.last()),
                digit_val(s.last()) < 10,
        ;
        assert(digit_char(digit_val(s.last())) == s.last());
        assert(dec_digits(v) =~= s);
    }
}

// ---------------------------------------------------------------------------
// Escaped strings
// ---------------------------------------------------------------------------

/// How one character stands inside a quoted string: the backslash, the
/// quote, and the common control characters get a two-character escape,
/// everything else stands for itself.
pub open spec fn esc_char(c: char) -> Seq<char> {
    if c == '\\' { seq!['\\', '\\'] }
    else if c == '"' { seq!['\\', '"'] }
    else if c == '\n' { seq!['\\', 'n'] }
    else if c == '\r' { seq!['\\', 'r'] }
    else if c == '\t' { seq!['\\', 't'] }
    else { seq![c] }
}

/// The character an escape pair `\e` stands for, if `e` is a valid escape.
pub open spec fn unesc_char(e: char) -> Option<char> {
    if e == '\\' { Some('\\') }
    else if e == '"' { Some('"') }
    else if e == 'n' { Some('\n') }
    else if e == 'r' { Some('\r') }
    else if e == 't' { Some('\t') }
    else { None }
}

/// The escaped form of a character sequence.
pub open spec fn esc(s: Seq<char>) -> Seq<char>
    decreases s.len(),
{
    if s.len() == 0 {
        Seq::empty()
    } else {
        esc_char(s[0]) + esc(s.drop_first())
    }
}

/// Escaping distributes over appending one character at the end.
pub proof fn lemma_esc_push(s: Seq<char>, c: char)
    ensures
        esc(s.push(c)) == esc(s) + esc_char(c),
    decreases s.len(),
{
    if s.len() == 0 {
        assert(s.push(c)[0] == c);
        assert(s.push(c).drop_first() =~= Seq::<char>::empty());
        assert(esc(Seq::<char>::empty()) == Seq::<char>::empty());
        assert(esc(s.push(c)) == esc_char(c) + esc(s.push(c).drop_first()));
        assert(esc(s.push(c)) =~= esc(s) + esc_char(c));
    } else {
        lemma_esc_push(s.drop_first(), c);
        assert(s.push(c)[0] == s[0]);
        assert(s.push(c).drop_first() =~= s.drop_first().push(c));
        assert(esc(s.push(c)) == esc_char(s[0]) + esc(s.drop_first().push(c)));
        assert(esc(s) == esc_char(s[0]) + esc(s.drop_first()));
        assert(esc(s.push(c)) =~= esc(s) + esc_char(c));
    }
}

// ---------------------------------------------------------------------------
// The grammar's fixed pieces
// ---------------------------------------------------------------------------

/// `{"id":`
pub open spec fn lit_id() -> Seq<char> {
    seq!['{', '"', 'i', 'd', '"', ':']
}

/// `,"title":"`
pub open spec fn lit_title() -> Seq<char> {
    seq![',', '"', 't', 'i', 't', 'l', 'e', '"', ':', '"']
}

/// `,"text":"`
pub open spec fn lit_text() -> Seq<char> {
    seq![',', '"', 't', 'e', 'x', 't', '"', ':', '"']
}

/// `,"color":[`
pub open spec fn lit_color() -> Seq<char> {
    seq![',', '"', 'c', 'o', 'l', 'o', 'r', '"', ':', '[']
}

/// `,"last_edited":"`
pub open spec fn lit_last_edited() -> Seq<char> {
    seq![']', ',', '"', 'l', 'a', 's', 't', '_', 'e', 'd', 'i', 't', 'e', 'd', '"', ':', '"']
}

// ---------------------------------------------------------------------------
// Encoding
// ---------------------------------------------------------------------------

/// The tail of an encoded note from its `last_edited` field on.
pub open spec fn enc_stamp_tail(n: NoteView) -> Seq<char> {
    lit_last_edited() + (esc(n.last_edited) + (seq!['"'] + seq!['}']))
}

/// The tail of an encoded note from its `color` field on.
pub open spec fn enc_color_tail(n: NoteView) -> Seq<char> {
    lit_color() + (dec_digits(n.color.red as nat) + (seq![',']
        + (dec_digits(n.color.green as nat) + (seq![',']
        + (dec_digits(n.color.blue as nat) + enc_stamp_tail(n))))))
}

/// The tail of an encoded note from its `text` field on.
pub open spec fn enc_text_tail(n: NoteView) -> Seq<char> {
    lit_text() + (esc(n.text) + (seq!['"'] + enc_color_tail(n)))
}

/// The tail of an encoded note from its `title` field on.
pub open spec fn enc_title_tail(n: NoteView) -> Seq<char> {
    lit_title() + (esc(n.title) + (seq!['"'] + enc_text_tail(n)))
}

/// One note as text, each piece standing in front of all that follows.
#[verifier::opaque]
pub open spec fn enc_note(n: NoteView) -> Seq<char> {
    lit_id() + (dec_digits(n.id as nat) + enc_title_tail(n))
}

/// Cutting a concatenation at the seam yields its two parts.
proof fn lemma_cut(a: Seq<char>, b: Seq<char>)
    ensures
        (a + b).take(a.len() as int) == a,
        (a + b).skip(a.len() as int) == b,
        a.is_prefix_of(a + b),
{
    assert((a + b).take(a.len() as int) =~= a);
    assert((a + b).skip(a.len() as int) =~= b);
}

/// A sequence is its head and its tail.
proof fn lemma_split(s: Seq<char>, k: int)
    requires
        0 <= k <= s.len(),
    ensures
        s == s.take(k) + s.skip(k),
{
    assert(s =~= s.take(k) + s.skip(k));
}

/// The notes of a list, separated by commas.
pub open spec fn enc_items(ns: Seq<NoteView>) -> Seq<char>
    decreases ns.len(),
{
    if ns.len() == 0 {
        Seq::empty()
    } else if ns.len() == 1 {
        enc_note(ns[0])
    } else {
        enc_note(ns[0]) + seq![','] + enc_items(ns.drop_first())
    }
}

/// The whole persisted text of a note list.
pub open spec fn spec_encode(ns: Seq<NoteView>) -> Seq<char> {
    seq!['['] + enc_items(ns) + seq![']']
}

/// The views of a sequence of notes.
pub open spec fn views(s: Seq<Note>) -> Seq<NoteView> {
    s.map_values(|n: Note| n@)
}

/// Every note of the sequence is one the store may hold.
pub open spec fn all_valid(ns: Seq<NoteView>) -> bool {
    forall|i: int| 0 <= i < ns.len() ==> (#[trigger] ns[i]).valid()
}

/// Appending one note to a list appends its text after a separating comma.
pub proof fn lemma_enc_items_push(ns: Seq<NoteView>, nv: NoteView)
    ensures
        ns.len() == 0 ==> enc_items(ns.push(nv)) == enc_note(nv),
        ns.len() > 0 ==> enc_items(ns.push(nv)) == enc_items(ns) + seq![','] + enc_note(nv),
    decreases ns.len(),
{
    let p = ns.push(nv);
    if ns.len() == 0 {
        assert(p.len() == 1);
        assert(p[0] == nv);
        assert(enc_items(p) == enc_note(nv));
    } else {
        lemma_enc_items_push(ns.drop_first(), nv);
        assert(p[0] == ns[0]);
        assert(p.drop_first() =~= ns.drop_first().push(nv));
        if ns.len() == 1 {
            assert(enc_items(p) == enc_note(p[0]) + seq![','] + enc_items(p.drop_first()));
            assert(enc_items(ns.drop_first().push(nv)) == enc_note(nv));
            assert(enc_items(ns) == enc_note(ns[0]));
            assert(enc_items(p) =~= enc_items(ns) + seq![','] + enc_note(nv));
        } else {
            assert(enc_items(p) == enc_note(p[0]) + seq![','] + enc_items(p.drop_first()));
            assert(enc_items(ns) == enc_note(ns[0]) + seq![','] + enc_items(ns.drop_first()));
            assert(enc_items(p) =~= enc_items(ns) + seq![','] + enc_note(nv));
        }
    }
}

// ---------------------------------------------------------------------------
// The grammar, read back: each piece takes the input and yields the parsed
// value together with the input that remains.
// ---------------------------------------------------------------------------

/// The longest digit prefix of the input.
pub open spec fn scan_digits(s: Seq<char>) -> Seq<char>
    decreases s.len(),
{
    if s.len() == 0 || !is_digit(s[0]) {
        Seq::empty()
    } else {
        seq![s[0]] + scan_digits(s.drop_first())
    }
}

/// Reads a number: a non-empty digit run without a leading zero, whose value
/// fits a non-negative `i32`.
pub open spec fn spec_parse_num(s: Seq<char>) -> Option<(nat, Seq<char>)> {
    let d = scan_digits(s);
    if d.len() == 0 {
        None
    } else if d.len() > 1 && d[0] == '0' {
        None
    } else if digits_val(d) > i32::MAX as nat {
        None
    } else {
        Some((digits_val(d), s.skip(d.len() as int)))
    }
}

/// Reads the escaped body of a quoted string, up to and over the closing
/// quote. A backslash must begin a known escape pair, and the quote, the
/// backslash and the escaped control characters never stand bare.
pub open spec fn spec_scan_str(s: Seq<char>) -> Option<(Seq<char>, Seq<char>)>
    decreases s.len(),
{
    if s.len() == 0 {
        None
    } else if s[0] == '"' {
        Some((Seq::empty(), s.skip(1)))
    } else if s[0] == '\\' {
        if s.len() < 2 {
            None
        } else {
            match unesc_char(s[1]) {
                None => None,
                Some(c) => match spec_scan_str(s.skip(2)) {
                    None => None,
                    Some((t, rest)) => Some((seq![c] + t, rest)),
                },
            }
        }
    } else if s[0] == '\n' || s[0] == '\r' || s[0] == '\t' {
        None
    } else {
        match spec_scan_str(s.skip(1)) {
            None => None,
            Some((t, rest)) => Some((seq![s[0]] + t, rest)),
        }
    }
}

/// The digit run is a prefix of the input, made of digits, and it is
/// maximal: the input ends or goes on with something else.
pub proof fn lemma_scan_digits(s: Seq<char>)
    ensures
        scan_digits(s).len() <= s.len(),
        scan_digits(s) == s.take(scan_digits(s).len() as int),
        forall|i: int| 0 <= i < scan_digits(s).len() ==> is_digit(#[trigger] scan_digits(s)[i]),
        scan_digits(s).len() == s.len() || !is_digit(s[scan_digits(s).len() as int]),
    decreases s.len(),
{
    if s.len() == 0 || !is_digit(s[0]) {
        assert(scan_digits(s) =~= s.take(0));
    } else {
        lemma_scan_digits(s.drop_first());
        let d = scan_digits(s);
        let d1 = scan_digits(s.drop_first());
        assert(d == seq![s[0]] + d1);
        assert(d.len() == 1 + d1.len());
        assert(d =~= s.take(d.len() as int));
        if d1.len() < s.drop_first().len() {
            assert(s.drop_first()[d1.len() as int] == s[d.len() as int]);
        }
    }
}

/// A run of digits in front of anything is scanned whole.
pub proof fn lemma_scan_digits_app(d: Seq<char>, r: Seq<char>)
    requires
        forall|i: int| 0 <= i < d.len() ==> is_digit(#[trigger] d[i]),
    ensures
        scan_digits(d + r) == d + scan_digits(r),
    decreases d.len(),
{
    if d.len() == 0 {
        assert(d + r =~= r);
        assert(d + scan_digits(r) =~= scan_digits(r));
    } else {
        assert((d + r)[0] == d[0]);
        assert((d + r).drop_first() =~= d.drop_first() + r);
        lemma_scan_digits_app(d.drop_first(), r);
        assert(scan_digits(d + r) == seq![d[0]] + (d.drop_first() + scan_digits(r)));
        assert(scan_digits(d + r) =~= d + scan_digits(r));
    }
}

/// The digits of a number in range, followed by anything that does not
/// begin with a digit, read back as that number.
pub proof fn lemma_num_complete(n: nat, rest: Seq<char>)
    requires
        n <= i32::MAX as nat,
        rest.len() == 0 || !is_digit(rest[0]),
    ensures
        spec_parse_num(dec_digits(n) + rest) == Some((n, rest)),
{
    let d = dec_digits(n);
    let s = d + rest;
    lemma_dec_digits_shape(n);
    lemma_digits_val_of_dec(n);
    assert(scan_digits(rest) =~= Seq::<char>::empty());
    lemma_scan_digits_app(d, rest);
    assert(scan_digits(s) == d + Seq::<char>::empty());
    assert(scan_digits(s) =~= d);
    if d.len() > 1 {
        assert(n >= 10) by {
            lemma_dec_digits_shape(n);
        }
        assert(d[0] != '0');
    }
    assert(s.skip(d.len() as int) =~= rest);
}

/// Whatever reads back as a number was exactly that number's digits.
pub proof fn lemma_num_sound(s: Seq<char>)
    ensures
        match spec_parse_num(s) {
            Some((v, rest)) => s == dec_digits(v) + rest && v <= i32::MAX as nat
                && rest.len() + 1 <= s.len(),
            None => true,
        },
{
    if spec_parse_num(s) is Some {
        let d = scan_digits(s);
        lemma_scan_digits(s);
        lemma_canonical_digits(d);
        assert(s =~= s.take(d.len() as int) + s.skip(d.len() as int));
    }
}

/// An escaped string, closed by its quote, reads back as itself whatever
/// comes after.
pub proof fn lemma_scan_str_complete(t: Seq<char>, rest: Seq<char>)
    ensures
        spec_scan_str(esc(t) + seq!['"'] + rest) == Some((t, rest)),
    decreases t.len(),
{
    let s = esc(t) + seq!['"'] + rest;
    if t.len() == 0 {
        assert(esc(t) == Seq::<char>::empty());
        assert(s =~= seq!['"'] + rest);
        assert(s[0] == '"');
        assert(s.skip(1) =~= rest);
        assert(t =~= Seq::<char>::empty());
    } else {
        let t0 = t[0];
        let t1 = t.drop_first();
        assert(esc(t) == esc_char(t0) + esc(t1));
        lemma_scan_str_complete(t1, rest);
        if t0 == '\\' || t0 == '"' || t0 == '\n' || t0 == '\r' || t0 == '\t' {
            let e = esc_char(t0)[1];
            assert(esc_char(t0).len() == 2);
            assert(s[0] == '\\');
            assert(s[1] == e);
            assert(unesc_char(e) == Some(t0));
            assert(s.skip(2) =~= esc(t1) + seq!['"'] + rest);
            assert(spec_scan_str(s) == Some((seq![t0] + t1, rest)));
            assert(seq![t0] + t1 =~= t);
        } else {
            assert(esc_char(t0) == seq![t0]);
            assert(s[0] == t0);
            assert(s.skip(1) =~= esc(t1) + seq!['"'] + rest);
            assert(spec_scan_str(s) == Some((seq![t0] + t1, rest)));
            assert(seq![t0] + t1 =~= t);
        }
    }
}

/// Whatever reads back as a string was exactly that string, escaped and
/// quoted.
pub proof fn lemma_scan_str_sound(s: Seq<char>)
    ensures
        match spec_scan_str(s) {
            Some((t, rest)) => s == esc(t) + seq!['"'] + rest && rest.len() + 1 <= s.len(),
            None => true,
        },
    decreases s.len(),
{
    if s.len() == 0 {
    } else if s[0] == '"' {
        assert(esc(Seq::<char>::empty()) == Seq::<char>::empty());
        assert(s =~= esc(Seq::<char>::empty()) + seq!['"'] + s.skip(1));
    } else if s[0] == '\\' {
        if s.len() >= 2 && unesc_char(s[1]) is Some && spec_scan_str(s.skip(2)) is Some {
            let c = unesc_char(s[1])->Some_0;
            lemma_scan_str_sound(s.skip(2));
            let (t1, rest) = spec_scan_str(s.skip(2))->Some_0;
            let t = seq![c] + t1;
            assert(t[0] == c);
            assert(t.drop_first() =~= t1);
            assert(esc(t) == esc_char(c) + esc(t1));
            assert(esc_char(c) == seq!['\\', s[1]]);
            assert(s =~= seq!['\\', s[1]] + s.skip(2));
            assert(s =~= esc(t) + seq!['"'] + rest);
        }
    } else if s[0] == '\n' || s[0] == '\r' || s[0] == '\t' {
    } else {
        if spec_scan_str(s.skip(1)) is Some {
            lemma_scan_str_sound(s.skip(1));
            let (t1, rest) = spec_scan_str(s.skip(1))->Some_0;
            let t = seq![s[0]] + t1;
            assert(t[0] == s[0]);
            assert(t.drop_first() =~= t1);
            assert(esc(t) == esc_char(s[0]) + esc(t1));
            assert(esc_char(s[0]) == seq![s[0]]);
            assert(s =~= seq![s[0]] + s.skip(1));
            assert(s =~= esc(t) + seq!['"'] + rest);
        }
    }
}

/// Reads one note.
#[verifier::opaque]
pub open spec fn spec_parse_note(s: Seq<char>) -> Option<(NoteView, Seq<char>)> {
    if !lit_id().is_prefix_of(s) {
        None
    } else {
        match spec_parse_num(s.skip(lit_id().len() as int)) {
            None => None,
            Some((id, s1)) => if !lit_title().is_prefix_of(s1) {
                None
            } else {
                match spec_scan_str(s1.skip(lit_title().len() as int)) {
                    None => None,
                    Some((title, s2)) => if !lit_text().is_prefix_of(s2) {
                        None
                    } else {
                        match spec_scan_str(s2.skip(lit_text().len() as int)) {
                            None => None,
                            Some((text, s3)) => if !lit_color().is_prefix_of(s3) {
                                None
                            } else {
                                match spec_parse_rgb(s3.skip(lit_color().len() as int)) {
                                    None => None,
                                    Some((color, s4)) => if !lit_last_edited().is_prefix_of(s4) {
                                        None
                                    } else {
                                        match spec_scan_str(s4.skip(lit_last_edited().len() as int)) {
                                            None => None,
                                            Some((stamp, s5)) => if s5.len() == 0 || s5[0] != '}' {
                                                None
                                            } else {
                                                Some((
                                                    NoteView {
                                                        id: id as i32,
                                                        title,
                                                        text,
                                                        last_edited: stamp,
                                                        color,
                                                    },
                                                    s5.skip(1),
                                                ))
                                            },
                                        }
                                    },
                                }
                            },
                        }
                    },
                }
            },
        }
    }
}

/// Reads the three colour bytes, separated by commas.
pub open spec fn spec_parse_rgb(s: Seq<char>) -> Option<(Color, Seq<char>)> {
    match spec_parse_num(s) {
        None => None,
        Some((red, s1)) => if red > 255 || s1.len() == 0 || s1[0] != ',' {
            None
        } else {
            match spec_parse_num(s1.skip(1)) {
                None => None,
                Some((green, s2)) => if green > 255 || s2.len() == 0 || s2[0] != ',' {
                    None
                } else {
                    match spec_parse_num(s2.skip(1)) {
                        None => None,
                        Some((blue, s3)) => if blue > 255 {
                            None
                        } else {
                            Some((Color { red: red as u8, green: green as u8, blue: blue as u8 }, s3))
                        },
                    }
                },
            }
        },
    }
}

/// Reads the notes of a non-empty list, together with the closing bracket.
pub open spec fn spec_parse_items(s: Seq<char>) -> Option<(Seq<NoteView>, Seq<char>)>
    decreases s.len(),
{
    match spec_parse_note(s) {
        None => None,
        Some((nv, s1)) => if s1.len() >= s.len() || s1.len() == 0 {
            None
        } else if s1[0] == ']' {
            Some((seq![nv], s1.skip(1)))
        } else if s1[0] == ',' {
            match spec_parse_items(s1.skip(1)) {
                None => None,
                Some((vs, s2)) => Some((seq![nv] + vs, s2)),
            }
        } else {
            None
        },
    }
}

/// Colour bytes followed by anything that does not begin with a digit read
/// back as themselves.
pub proof fn lemma_rgb_complete(c: Color, rest: Seq<char>)
    requires
        rest.len() == 0 || !is_digit(rest[0]),
    ensures
        spec_parse_rgb(
            dec_digits(c.red as nat) + (seq![','] + (dec_digits(c.green as nat) + (seq![',']
                + (dec_digits(c.blue as nat) + rest)))),
        ) == Some((c, rest)),
{
    let m3 = dec_digits(c.blue as nat) + rest;
    let m2b = seq![','] + m3;
    let m2 = dec_digits(c.green as nat) + m2b;
    let m1b = seq![','] + m2;
    let s = dec_digits(c.red as nat) + m1b;
    assert(!is_digit(m1b[0]));
    lemma_num_complete(c.red as nat, m1b);
    lemma_cut(seq![','], m2);
    assert(!is_digit(m2b[0]));
    lemma_num_complete(c.green as nat, m2b);
    lemma_cut(seq![','], m3);
    lemma_num_complete(c.blue as nat, rest);
}

/// Whatever reads back as colour bytes was exactly their digits.
pub proof fn lemma_rgb_sound(s: Seq<char>)
    ensures
        match spec_parse_rgb(s) {
            Some((c, rest)) => s == dec_digits(c.red as nat) + (seq![',']
                + (dec_digits(c.green as nat) + (seq![','] + (dec_digits(c.blue as nat) + rest))))
                && rest.len() + 5 <= s.len(),
            None => true,
        },
{
    if spec_parse_rgb(s) is Some {
        lemma_num_sound(s);
        let (red, s1) = spec_parse_num(s)->Some_0;
        lemma_num_sound(s1.skip(1));
        let (green, s2) = spec_parse_num(s1.skip(1))->Some_0;
        lemma_num_sound(s2.skip(1));
        let (blue, s3) = spec_parse_num(s2.skip(1))->Some_0;
        lemma_dec_digits_shape(red);
        lemma_dec_digits_shape(green);
        lemma_dec_digits_shape(blue);
        lemma_split(s1, 1);
        assert(s1.take(1) =~= seq![',']);
        lemma_split(s2, 1);
        assert(s2.take(1) =~= seq![',']);
        assert(s1 == seq![','] + (dec_digits(green) + s2));
        assert(s == dec_digits(red) + (seq![','] + (dec_digits(green) + (seq![',']
            + (dec_digits(blue) + s3)))));
        assert(dec_digits((red as u8) as nat) == dec_digits(red));
        assert(dec_digits((green as u8) as nat) == dec_digits(green));
        assert(dec_digits((blue as u8) as nat) == dec_digits(blue));
    }
}

/// The pieces of one encoded note, each put in front of a common tail:
/// pushing the tail inside costs one associativity step per piece.
proof fn lemma_enc_note_chain(nv: NoteView, rest: Seq<char>)
    ensures
        enc_note(nv) + rest == lit_id() + (dec_digits(nv.id as nat) + (enc_title_tail(nv) + rest)),
        enc_title_tail(nv) + rest == lit_title() + (esc(nv.title) + (seq!['"'] + (enc_text_tail(nv) + rest))),
        enc_text_tail(nv) + rest == lit_text() + (esc(nv.text) + (seq!['"'] + (enc_color_tail(nv) + rest))),
        enc_color_tail(nv) + rest == lit_color() + (dec_digits(nv.color.red as nat) + (seq![',']
            + (dec_digits(nv.color.green as nat) + (seq![','] + (dec_digits(nv.color.blue as nat)
            + (enc_stamp_tail(nv) + rest)))))),
        enc_stamp_tail(nv) + rest == lit_last_edited() + (esc(nv.last_edited) + (seq!['"'] + (seq!['}'] + rest))),
{
    reveal(enc_note);
    let q = seq!['"'];
    let rb = seq!['}'];
    let comma = seq![','];
    let a_id = dec_digits(nv.id as nat);
    let a_r = dec_digits(nv.color.red as nat);
    let a_g = dec_digits(nv.color.green as nat);
    let a_b = dec_digits(nv.color.blue as nat);

    vstd::seq_lib::lemma_concat_associative(q, rb, rest);
    vstd::seq_lib::lemma_concat_associative(esc(nv.last_edited), q + rb, rest);
    vstd::seq_lib::lemma_concat_associative(lit_last_edited(), esc(nv.last_edited) + (q + rb), rest);

    let st = enc_stamp_tail(nv);
    vstd::seq_lib::lemma_concat_associative(a_b, st, rest);
    vstd::seq_lib::lemma_concat_associative(comma, a_b + st, rest);
    vstd::seq_lib::lemma_concat_associative(a_g, comma + (a_b + st), rest);
    vstd::seq_lib::lemma_concat_associative(comma, a_g + (comma + (a_b + st)), rest);
    vstd::seq_lib::lemma_concat_associative(a_r, comma + (a_g + (comma + (a_b + st))), rest);
    vstd::seq_lib::lemma_concat_associative(lit_color(), a_r + (comma + (a_g + (comma + (a_b + st)))), rest);

    let ct = enc_color_tail(nv);
    vstd::seq_lib::lemma_concat_associative(q, ct, rest);
    vstd::seq_lib::lemma_concat_associative(esc(nv.text), q + ct, rest);
    vstd::seq_lib::lemma_concat_associative(lit_text(), esc(nv.text) + (q + ct), rest);

    let tt = enc_text_tail(nv);
    vstd::seq_lib::lemma_concat_associative(q, tt, rest);
    vstd::seq_lib::lemma_concat_associative(esc(nv.title), q + tt, rest);
    vstd::seq_lib::lemma_concat_associative(lit_title(), esc(nv.title) + (q + tt), rest);

    let tl = enc_title_tail(nv);
    vstd::seq_lib::lemma_concat_associative(a_id, tl, rest);
    vstd::seq_lib::lemma_concat_associative(lit_id(), a_id + tl, rest);
}

/// One encoded note, followed by anything, reads back as itself.
#[verifier::rlimit(100)]
pub proof fn lemma_note_complete(nv: NoteView, rest: Seq<char>)
    requires
        nv.valid(),
    ensures
        spec_parse_note(enc_note(nv) + rest) == Some((nv, rest)),
{
    reveal(spec_parse_note);
    let q = seq!['"'];
    let rb = seq!['}'];
    let comma = seq![','];
    let s = enc_note(nv) + rest;
    let u1 = enc_title_tail(nv) + rest;
    let u2 = enc_text_tail(nv) + rest;
    let u3 = enc_color_tail(nv) + rest;
    let u4 = enc_stamp_tail(nv) + rest;
    let u5 = rb + rest;
    let inner = dec_digits(nv.color.red as nat) + (comma + (dec_digits(nv.color.green as nat)
        + (comma + (dec_digits(nv.color.blue as nat) + u4))));
    lemma_enc_note_chain(nv, rest);
    lemma_cut(lit_id(), dec_digits(nv.id as nat) + u1);
    assert(u1[0] == ',');
    lemma_num_complete(nv.id as nat, u1);
    lemma_cut(lit_title(), esc(nv.title) + (q + u2));
    vstd::seq_lib::lemma_concat_associative(esc(nv.title), q, u2);
    lemma_scan_str_complete(nv.title, u2);
    lemma_cut(lit_text(), esc(nv.text) + (q + u3));
    vstd::seq_lib::lemma_concat_associative(esc(nv.text), q, u3);
    lemma_scan_str_complete(nv.text, u3);
    lemma_cut(lit_color(), inner);
    assert(u4[0] == ']');
    lemma_rgb_complete(nv.color, u4);
    assert(u4 == lit_last_edited() + (esc(nv.last_edited) + (q + u5)));
    lemma_cut(lit_last_edited(), esc(nv.last_edited) + (q + u5));
    vstd::seq_lib::lemma_concat_associative(esc(nv.last_edited), q, u5);
    lemma_scan_str_complete(nv.last_edited, u5);
    assert(u5[0] == '}');
    lemma_cut(rb, rest);
    assert((nv.id as nat) as i32 == nv.id);
    assert(spec_parse_note(s) == Some((nv, rest)));
}

/// Whatever reads back as a note was exactly that note's text.
#[verifier::rlimit(100)]
pub proof fn lemma_note_sound(s: Seq<char>)
    ensures
        match spec_parse_note(s) {
            Some((nv, rest)) => s == enc_note(nv) + rest && nv.valid()
                && rest.len() + 1 <= s.len(),
            None => true,
        },
{
    reveal(spec_parse_note);
    if spec_parse_note(s) is Some {
        let q = seq!['"'];
        lemma_num_sound(s.skip(lit_id().len() as int));
        let (id, s1) = spec_parse_num(s.skip(lit_id().len() as int))->Some_0;
        lemma_scan_str_sound(s1.skip(lit_title().len() as int));
        let (title, s2) = spec_scan_str(s1.skip(lit_title().len() as int))->Some_0;
        lemma_scan_str_sound(s2.skip(lit_text().len() as int));
        let (text, s3) = spec_scan_str(s2.skip(lit_text().len() as int))->Some_0;
        lemma_rgb_sound(s3.skip(lit_color().len() as int));
        let (color, s4) = spec_parse_rgb(s3.skip(lit_color().len() as int))->Some_0;
        lemma_scan_str_sound(s4.skip(lit_last_edited().len() as int));
        let (stamp, s5) = spec_scan_str(s4.skip(lit_last_edited().len() as int))->Some_0;
        let nv = NoteView { id: id as i32, title, text, last_edited: stamp, color };
        let rest = s5.skip(1);

        lemma_split(s, lit_id().len() as int);
        assert(s.take(lit_id().len() as int) == lit_id());
        lemma_split(s1, lit_title().len() as int);
        assert(s1.take(lit_title().len() as int) == lit_title());
        lemma_split(s2, lit_text().len() as int);
        assert(s2.take(lit_text().len() as int) == lit_text());
        lemma_split(s3, lit_color().len() as int);
        assert(s3.take(lit_color().len() as int) == lit_color());
        lemma_split(s4, lit_last_edited().len() as int);
        assert(s4.take(lit_last_edited().len() as int) == lit_last_edited());
        lemma_split(s5, 1);
        assert(s5.take(1) =~= seq!['}']);

        vstd::seq_lib::lemma_concat_associative(esc(title), q, s2);
        vstd::seq_lib::lemma_concat_associative(esc(text), q, s3);
        vstd::seq_lib::lemma_concat_associative(esc(stamp), q, s5);
        lemma_enc_note_chain(nv, rest);
        assert(s5 == seq!['}'] + rest);
        assert(s4 == lit_last_edited() + (esc(stamp) + (q + s5)));
        assert(s4 == enc_stamp_tail(nv) + rest);
        assert(s3 == lit_color() + (dec_digits(color.red as nat) + (seq![',']
            + (dec_digits(color.green as nat) + (seq![',']
            + (dec_digits(color.blue as nat) + s4))))));
        assert(s3 == enc_color_tail(nv) + rest);
        assert(s2 == lit_text() + (esc(text) + (q + s3)));
        assert(s2 == enc_text_tail(nv) + rest);
        assert(s1 == lit_title() + (esc(title) + (q + s2)));
        assert(s1 == enc_title_tail(nv) + rest);
        assert(dec_digits(nv.id as nat) == dec_digits(id));
        assert(s == lit_id() + (dec_digits(id) + s1));
        assert(s == enc_note(nv) + rest);
    }
}

/// An encoded note is never empty and always opens its object brace.
pub proof fn lemma_enc_note_len(nv: NoteView)
    ensures
        enc_note(nv).len() >= 6,
        enc_note(nv)[0] == '{',
{
    reveal(enc_note);
    assert(enc_note(nv)[0] == lit_id()[0]);
}

/// An encoded run of notes with its closing bracket, followed by anything,
/// reads back as those notes.
#[verifier::rlimit(100)]
pub proof fn lemma_items_complete(ns: Seq<NoteView>, rest: Seq<char>)
    requires
        ns.len() >= 1,
        all_valid(ns),
    ensures
        spec_parse_items(enc_items(ns) + seq![']'] + rest) == Some((ns, rest)),
    decreases ns.len(),
{
    let s = enc_items(ns) + seq![']'] + rest;
    if ns.len() == 1 {
        let r = seq![']'] + rest;
        assert(s =~= enc_note(ns[0]) + r);
        lemma_note_complete(ns[0], r);
        assert(r[0] == ']');
        assert(r.skip(1) =~= rest);
        assert(seq![ns[0]] =~= ns);
        lemma_enc_note_len(ns[0]);
        assert(r.len() < s.len());
    } else {
        let ns1 = ns.drop_first();
        assert(enc_items(ns) == enc_note(ns[0]) + seq![','] + enc_items(ns1));
        let r = seq![','] + enc_items(ns1) + seq![']'] + rest;
        assert(s =~= enc_note(ns[0]) + r);
        lemma_note_complete(ns[0], r);
        lemma_enc_note_len(ns[0]);
        assert(r.len() < s.len());
        assert(r[0] == ',');
        assert(forall|i: int| 0 <= i < ns1.len() ==> (#[trigger] ns1[i]) == ns[i + 1]);
        lemma_items_complete(ns1, rest);
        assert(r.skip(1) =~= enc_items(ns1) + seq![']'] + rest);
        assert(seq![ns[0]] + ns1 =~= ns);
    }
}

/// Whatever reads back as a run of notes was exactly their encoding.
#[verifier::rlimit(100)]
pub proof fn lemma_items_sound(s: Seq<char>)
    ensures
        match spec_parse_items(s) {
            Some((vs, rest)) => vs.len() >= 1 && all_valid(vs)
                && s == enc_items(vs) + seq![']'] + rest && rest.len() < s.len(),
            None => true,
        },
    decreases s.len(),
{
    if spec_parse_items(s) is Some {
        lemma_note_sound(s);
        let (nv, s1) = spec_parse_note(s)->Some_0;
        if s1[0] == ']' {
            assert(s1 =~= seq![']'] + s1.skip(1));
            assert(enc_items(seq![nv]) == enc_note(nv));
            assert(s =~= enc_items(seq![nv]) + seq![']'] + s1.skip(1));
            assert(all_valid(seq![nv]));
        } else {
            lemma_items_sound(s1.skip(1));
            let (vs1, rest) = spec_parse_items(s1.skip(1))->Some_0;
            let vs = seq![nv] + vs1;
            assert(s1 =~= seq![','] + s1.skip(1));
            assert(vs[0] == nv);
            assert(vs.drop_first() =~= vs1);
            assert(vs.len() >= 2);
            assert(enc_items(vs) == enc_note(nv) + seq![','] + enc_items(vs1));
            assert(s =~= enc_items(vs) + seq![']'] + rest);
            assert(all_valid(vs)) by {
                assert(forall|i: int| 0 <= i < vs.len() ==> (#[trigger] vs[i])
                    == if i == 0 { nv } else { vs1[i - 1] });
            }
        }
    }
}

/// Reads a whole persisted text: the bracketed list, with nothing after it.
pub open spec fn spec_decode(s: Seq<char>) -> Option<Seq<NoteView>> {
    if s.len() == 0 || s[0] != '[' {
        None
    } else {
        let s1 = s.skip(1);
        if s1.len() > 0 && s1[0] == ']' {
            if s1.len() == 1 {
                Some(Seq::empty())
            } else {
                None
            }
        } else {
            match spec_parse_items(s1) {
                None => None,
                Some((vs, rest)) => if rest.len() == 0 {
                    Some(vs)
                } else {
                    None
                },
            }
        }
    }
}

/// Decoding an encoded note list yields the very same notes, whatever they
/// hold: loading what was saved loses nothing.
pub proof fn lemma_decode_of_encode(ns: Seq<NoteView>)
    requires
        all_valid(ns),
    ensures
        spec_decode(spec_encode(ns)) == Some(ns),
{
    let s = spec_encode(ns);
    let s1 = s.skip(1);
    assert(s[0] == '[');
    assert(s1 =~= enc_items(ns) + seq![']']);
    if ns.len() == 0 {
        assert(enc_items(ns) == Seq::<char>::empty());
        assert(s1 =~= seq![']']);
        assert(s1[0] == ']' && s1.len() == 1);
        assert(ns =~= Seq::<NoteView>::empty());
    } else {
        lemma_enc_note_len(ns[0]);
        assert(enc_items(ns)[0] == enc_note(ns[0])[0]) by {
            if ns.len() == 1 {
                assert(enc_items(ns) == enc_note(ns[0]));
            } else {
                assert(enc_items(ns) == enc_note(ns[0]) + seq![','] + enc_items(ns.drop_first()));
            }
        }
        assert(s1[0] == '{');
        lemma_items_complete(ns, Seq::<char>::empty());
        assert(s1 =~= enc_items(ns) + seq![']'] + Seq::<char>::empty());
        assert(spec_parse_items(s1) == Some((ns, Seq::<char>::empty())));
    }
}

/// Every decodable text is the encoding of what it decodes to: saving what
/// was loaded writes the file back as it stood.
pub proof fn lemma_encode_of_decode(s: Seq<char>)
    ensures
        match spec_decode(s) {
            Some(ns) => all_valid(ns) && s == spec_encode(ns),
            None => true,
        },
{
    if spec_decode(s) is Some {
        let s1 = s.skip(1);
        if s1.len() > 0 && s1[0] == ']' {
            assert(spec_decode(s) == Some(Seq::<NoteView>::empty()));
            assert(enc_items(Seq::<NoteView>::empty()) == Seq::<char>::empty());
            assert(s =~= spec_encode(Seq::<NoteView>::empty()));
        } else {
            lemma_items_sound(s1);
            let (vs, rest) = spec_parse_items(s1)->Some_0;
            assert(rest.len() == 0);
            assert(s1 == enc_items(vs) + seq![']'] + rest);
            assert(s =~= seq!['['] + s1);
            assert(s =~= spec_encode(vs));
        }
    }
}

// ---------------------------------------------------------------------------
// The encoder
// ---------------------------------------------------------------------------

/// The character for an executable digit value.
fn digit_to_char(d: u32) -> (c: char)
    requires
        d < 10,
    ensures
        c == digit_char(d as nat),
{
    match d {
        0 => '0',
        1 => '1',
        2 => '2',
        3 => '3',
        4 => '4',
        5 => '5',
        6 => '6',
        7 => '7',
        8 => '8',
        _ => '9',
    }
}

/// Writes the decimal digits of `n`.
fn emit_num(out: &mut Vec<char>, n: u32)
    ensures
        final(out)@ == old(out)@ + dec_digits(n as nat),
    decreases n,
{
    if n < 10 {
        out.push(digit_to_char(n));
        assert(out@ =~= old(out)@ + dec_digits(n as nat));
    } else {
        emit_num(out, n / 10);
        out.push(digit_to_char(n % 10));
        assert(out@ =~= old(out)@ + dec_digits(n as nat));
    }
}

/// Writes the characters of a fixed piece of the grammar.
fn emit_lit(out: &mut Vec<char>, lit: &str)
    ensures
        final(out)@ == old(out)@ + lit@,
{
    let ghost out0 = out@;
    let n = lit.unicode_len();
    let mut i: usize = 0;
    proof {
        assert(out@ =~= out0 + lit@.take(0));
    }
    while i < n
        invariant
            i <= n,
            n == lit@.len(),
            out@ == out0 + lit@.take(i as int),
        decreases n - i,
    {
        out.push(lit.get_char(i));
        proof {
            assert(out@ =~= out0 + lit@.take(i + 1));
        }
        i += 1;
    }
    proof {
        assert(lit@.take(n as int) =~= lit@);
    }
}

/// Writes one note.
#[verifier::rlimit(100)]
fn emit_note(out: &mut Vec<char>, n: &Note)
    requires
        n@.valid(),
    ensures
        final(out)@ == old(out)@ + enc_note(n@),
{
    let ghost out0 = out@;
    proof {
        reveal(enc_note);
        reveal_strlit("{\"id\":");
        reveal_strlit(",\"title\":\"");
        reveal_strlit(",\"text\":\"");
        reveal_strlit(",\"color\":[");
        reveal_strlit(",");
        reveal_strlit("],\"last_edited\":\"");
        assert("{\"id\":"@ =~= lit_id());
        assert(",\"title\":\""@ =~= lit_title());
        assert(",\"text\":\""@ =~= lit_text());
        assert(",\"color\":["@ =~= lit_color());
        assert(","@ =~= seq![',']);
        assert("],\"last_edited\":\""@ =~= lit_last_edited());
    }
    emit_lit(out, "{\"id\":");
    emit_num(out, n.id as u32);
    let ghost g2 = out@;
    emit_lit(out, ",\"title\":\"");
    let ghost g3 = out@;
    emit_str_tail(out, &n.title);
    emit_lit(out, ",\"text\":\"");
    let ghost g5 = out@;
    emit_str_tail(out, &n.text);
    emit_lit(out, ",\"color\":[");
    let ghost g7 = out@;
    emit_num(out, n.color.red as u32);
    let ghost g8 = out@;
    emit_lit(out, ",");
    let ghost g9 = out@;
    emit_num(out, n.color.green as u32);
    let ghost g10 = out@;
    emit_lit(out, ",");
    let ghost g11 = out@;
    emit_num(out, n.color.blue as u32);
    let ghost g12 = out@;
    emit_lit(out, "],\"last_edited\":\"");
    let ghost g13 = out@;
    emit_str_tail(out, &n.last_edited);
    let ghost g14 = out@;
    out.push('}');
    proof {
        let nv = n@;
        let q = seq!['"'];
        let rb = seq!['}'];
        let comma = seq![','];
        let a_id = dec_digits(nv.id as nat);
        let a_r = dec_digits(nv.color.red as nat);
        let a_g = dec_digits(nv.color.green as nat);
        let a_b = dec_digits(nv.color.blue as nat);
        let g13e = g13 + esc(nv.last_edited);
        assert(out@ =~= g14 + rb);
        assert(g14 == g13e + q);
        vstd::seq_lib::lemma_concat_associative(g13e, q, rb);
        vstd::seq_lib::lemma_concat_associative(g13, esc(nv.last_edited), q + rb);
        vstd::seq_lib::lemma_concat_associative(g12, lit_last_edited(), esc(nv.last_edited) + (q + rb));
        assert(out@ == g12 + enc_stamp_tail(nv));
        vstd::seq_lib::lemma_concat_associative(g11, a_b, enc_stamp_tail(nv));
        vstd::seq_lib::lemma_concat_associative(g10, comma, a_b + enc_stamp_tail(nv));
        vstd::seq_lib::lemma_concat_associative(g9, a_g, comma + (a_b + enc_stamp_tail(nv)));
        vstd::seq_lib::lemma_concat_associative(g8, comma, a_g + (comma + (a_b + enc_stamp_tail(nv))));
        vstd::seq_lib::lemma_concat_associative(
            g7,
            a_r,
            comma + (a_g + (comma + (a_b + enc_stamp_tail(nv)))),
        );
        vstd::seq_lib::lemma_concat_associative(
            g5 + esc(nv.text) + q,
            lit_color(),
            a_r + (comma + (a_g + (comma + (a_b + enc_stamp_tail(nv))))),
        );
        assert(out@ == g5 + esc(nv.text) + q + enc_color_tail(nv));
        vstd::seq_lib::lemma_concat_associative(g5 + esc(nv.text), q, enc_color_tail(nv));
        vstd::seq_lib::lemma_concat_associative(g5, esc(nv.text), q + enc_color_tail(nv));
        vstd::seq_lib::lemma_concat_associative(
            g3 + esc(nv.title) + q,
            lit_text(),
            esc(nv.text) + (q + enc_color_tail(nv)),
        );
        assert(out@ == g3 + esc(nv.title) + q + enc_text_tail(nv));
        vstd::seq_lib::lemma_concat_associative(g3 + esc(nv.title), q, enc_text_tail(nv));
        vstd::seq_lib::lemma_concat_associative(g3, esc(nv.title), q + enc_text_tail(nv));
        vstd::seq_lib::lemma_concat_associative(g2, lit_title(), esc(nv.title) + (q + enc_text_tail(nv)));
        assert(out@ == g2 + enc_title_tail(nv));
        vstd::seq_lib::lemma_concat_associative(out0 + lit_id(), a_id, enc_title_tail(nv));
        vstd::seq_lib::lemma_concat_associative(out0, lit_id(), a_id + enc_title_tail(nv));
        assert(out@ == out0 + enc_note(nv));
    }
}

/// Writes the escaped characters of a string and its closing quote; the
/// opening quote stands at the end of the literal before it.
fn emit_str_tail(out: &mut Vec<char>, s: &String)
    ensures
        final(out)@ == old(out)@ + esc(s@) + seq!['"'],
{
    let ghost out0 = out@;
    let n = s.as_str().unicode_len();
    let mut i: usize = 0;
    proof {
        assert(esc(s@.take(0)) == Seq::<char>::empty());
        assert(out@ =~= out0 + esc(s@.take(0)));
    }
    while i < n
        invariant
            i <= n,
            n == s@.len(),
            out@ == out0 + esc(s@.take(i as int)),
        decreases n - i,
    {
        let c = s.as_str().get_char(i);
        if c == '\\' {
            out.push('\\');
            out.push('\\');
        } else if c == '"' {
            out.push('\\');
            out.push('"');
        } else if c == '\n' {
            out.push('\\');
            out.push('n');
        } else if c == '\r' {
            out.push('\\');
            out.push('r');
        } else if c == '\t' {
            out.push('\\');
            out.push('t');
        } else {
            out.push(c);
        }
        proof {
            lemma_esc_push(s@.take(i as int), s@[i as int]);
            assert(s@.take(i as int).push(s@[i as int]) =~= s@.take(i + 1));
            assert(out@ =~= out0 + esc(s@.take(i + 1)));
        }
        i += 1;
    }
    out.push('"');
    proof {
        assert(s@.take(n as int) =~= s@);
        assert(out@ =~= out0 + esc(s@) + seq!['"']);
    }
}

/// Encodes a whole note list as text.
pub fn encode_notes(notes: &Vec<Note>) -> (r: Vec<char>)
    requires
        all_valid(views(notes@)),
    ensures
        r@ == spec_encode(views(notes@)),
{
    let mut out: Vec<char> = Vec::new();
    out.push('[');
    let ghost ns = views(notes@);
    let mut i: usize = 0;
    proof {
        assert(enc_items(ns.take(0)) == Seq::<char>::empty());
        assert(out@ =~= seq!['['] + enc_items(ns.take(0)));
    }
    while i < notes.len()
        invariant
            i <= notes@.len(),
            ns == views(notes@),
            all_valid(ns),
            out@ == seq!['['] + enc_items(ns.take(i as int)),
        decreases notes@.len() - i,
    {
        if i > 0 {
            out.push(',');
        }
        assert(notes@[i as int]@ == ns[i as int]);
        emit_note(&mut out, &notes[i]);
        proof {
            lemma_enc_items_push(ns.take(i as int), ns[i as int]);
            assert(ns.take(i as int).push(ns[i as int]) =~= ns.take(i + 1));
            assert(out@ =~= seq!['['] + enc_items(ns.take(i + 1)));
        }
        i += 1;
    }
    out.push(']');
    proof {
        assert(ns.take(notes@.len() as int) =~= ns);
        assert(out@ =~= spec_encode(ns));
    }
    out
}

// ---------------------------------------------------------------------------
// The decoder
// ---------------------------------------------------------------------------

/// Whether a character is a decimal digit, executably.
fn is_digit_c(c: char) -> (b: bool)
    ensures
        b == is_digit(c),
{
    c == '0' || c == '1' || c == '2' || c == '3' || c == '4'
    || c == '5' || c == '6' || c == '7' || c == '8' || c == '9'
}

/// The value of one digit character, executably.
fn digit_value(c: char) -> (d: u32)
    requires
        is_digit(c),
    ensures
        d == digit_val(c),
        d < 10,
{
    if c == '1' { 1 }
    else if c == '2' { 2 }
    else if c == '3' { 3 }
    else if c == '4' { 4 }
    else if c == '5' { 5 }
    else if c == '6' { 6 }
    else if c == '7' { 7 }
    else if c == '8' { 8 }
    else if c == '9' { 9 }
    else { 0 }
}

/// The character an escape pair stands for, executably.
fn unesc_c(e: char) -> (r: Option<char>)
    ensures
        r == unesc_char(e),
{
    if e == '\\' { Some('\\') }
    else if e == '"' { Some('"') }
    else if e == 'n' { Some('\n') }
    else if e == 'r' { Some('\r') }
    else if e == 't' { Some('\t') }
    else { None }
}

/// What a partial string scan leaves of the whole one: the characters read
/// so far stand in front of whatever the rest of the scan yields.
pub open spec fn str_step(pre: Seq<char>, r: Option<(Seq<char>, Seq<char>)>) -> Option<(Seq<char>, Seq<char>)> {
    match r {
        None => None,
        Some((t, rest)) => Some((pre + t, rest)),
    }
}

/// Prefixes of a string scan compose.
proof fn lemma_str_step_assoc(a: Seq<char>, b: Seq<char>, r: Option<(Seq<char>, Seq<char>)>)
    ensures
        str_step(a, str_step(b, r)) == str_step(a + b, r),
{
    match r {
        None => {},
        Some((t, rest)) => {
            assert(a + (b + t) =~= (a + b) + t);
        },
    }
}

/// The same, for a partial scan of the note list.
pub open spec fn items_step(pre: Seq<NoteView>, r: Option<(Seq<NoteView>, Seq<char>)>) -> Option<(Seq<NoteView>, Seq<char>)> {
    match r {
        None => None,
        Some((vs, rest)) => Some((pre + vs, rest)),
    }
}

/// Reads a number at `start`, as the grammar defines one.
fn parse_num(v: &Vec<char>, start: usize) -> (r: Option<(u32, usize)>)
    requires
        start <= v.len(),
    ensures
        match spec_parse_num(v@.skip(start as int)) {
            Some((val, rest)) => r matches Some((x, j)) && x as nat == val
                && start <= j <= v@.len() && v@.skip(j as int) == rest,
            None => r is None,
        },
{
    let ghost s = v@.skip(start as int);
    proof {
        lemma_scan_digits(s);
    }
    let ghost d = scan_digits(s);
    let mut pos: usize = start;
    let mut acc: u64 = 0;
    while pos < v.len()
        invariant
            start <= pos <= v.len(),
            s == v@.skip(start as int),
            d == scan_digits(s),
            forall|k: int| start <= k < pos ==> is_digit(#[trigger] v@[k]),
            acc as nat == digits_val(v@.subrange(start as int, pos as int)),
            acc <= i32::MAX as u64,
        ensures
            start <= pos <= v.len(),
            forall|k: int| start <= k < pos ==> is_digit(#[trigger] v@[k]),
            acc as nat == digits_val(v@.subrange(start as int, pos as int)),
            acc <= i32::MAX as u64,
            pos == v.len() || !is_digit(v@[pos as int]),
        decreases v@.len() - pos,
    {
        let c = v[pos];
        if !is_digit_c(c) {
            break;
        }
        let dv = digit_value(c);
        let acc2: u64 = acc * 10 + dv as u64;
        proof {
            let pre = v@.subrange(start as int, pos as int);
            assert(v@.subrange(start as int, pos + 1) =~= pre.push(c));
            assert(pre.push(c).drop_last() =~= pre);
            assert(pre.push(c).last() == c);
            assert(digits_val(pre.push(c)) == digits_val(pre) * 10 + digit_val(c));
            assert(acc2 as nat == digits_val(v@.subrange(start as int, pos + 1)));
        }
        if acc2 > i32::MAX as u64 {
            proof {
                let pre = v@.subrange(start as int, pos + 1);
                lemma_scan_digits_app(pre, v@.skip(pos + 1));
                assert(pre + v@.skip(pos + 1) =~= s);
                assert(d == pre + scan_digits(v@.skip(pos + 1)));
                assert(pre =~= d.take(pre.len() as int));
                lemma_digits_val_take(d, pre.len() as int);
                assert(digits_val(d) > i32::MAX as nat);
            }
            return None;
        }
        acc = acc2;
        pos += 1;
    }
    proof {
        let pre = v@.subrange(start as int, pos as int);
        assert(scan_digits(v@.skip(pos as int)) =~= Seq::<char>::empty()) by {
            if pos < v.len() {
                assert(v@.skip(pos as int)[0] == v@[pos as int]);
            }
        }
        lemma_scan_digits_app(pre, v@.skip(pos as int));
        assert(pre + v@.skip(pos as int) =~= s);
        assert(d =~= pre);
    }
    if pos == start {
        proof {
            assert(d.len() == 0);
        }
        return None;
    }
    if v[start] == '0' && pos - start > 1 {
        proof {
            assert(d[0] == v@[start as int]);
        }
        return None;
    }
    proof {
        assert(d[0] == v@[start as int]);
        assert(s.skip(d.len() as int) =~= v@.skip(pos as int));
    }
    Some((acc as u32, pos))
}

/// Reads a quoted string's body at `start`, the opening quote already
/// consumed, building the characters it stands for.
fn parse_string(v: &Vec<char>, start: usize) -> (r: Option<(Vec<char>, usize)>)
    requires
        start <= v.len(),
    ensures
        match spec_scan_str(v@.skip(start as int)) {
            Some((t, rest)) => r matches Some((s, j)) && s@ == t && start <= j <= v@.len()
                && v@.skip(j as int) == rest,
            None => r is None,
        },
{
    let mut out: Vec<char> = Vec::new();
    let mut pos: usize = start;
    proof {
        let r0 = spec_scan_str(v@.skip(start as int));
        if r0 is Some {
            assert(Seq::<char>::empty() + r0->Some_0.0 =~= r0->Some_0.0);
        }
    }
    loop
        invariant
            start <= pos <= v@.len(),
            spec_scan_str(v@.skip(start as int)) == str_step(out@, spec_scan_str(v@.skip(pos as int))),
        decreases v@.len() - pos,
    {
        if pos == v.len() {
            proof {
                assert(v@.skip(pos as int) =~= Seq::<char>::empty());
            }
            return None;
        }
        let ghost sp = v@.skip(pos as int);
        proof {
            assert(sp[0] == v@[pos as int]);
        }
        let c = v[pos];
        if c == '"' {
            proof {
                assert(sp.skip(1) =~= v@.skip(pos + 1));
                assert(out@ + Seq::<char>::empty() =~= out@);
            }
            return Some((out, pos + 1));
        } else if c == '\\' {
            if pos + 1 == v.len() {
                proof {
                    assert(sp.len() == 1);
                }
                return None;
            }
            let e = v[pos + 1];
            proof {
                assert(sp[1] == e);
            }
            match unesc_c(e) {
                None => {
                    return None;
                },
                Some(c2) => {
                    let ghost out0 = out@;
                    out.push(c2);
                    proof {
                        assert(sp.skip(2) =~= v@.skip(pos + 2));
                        assert(spec_scan_str(sp) == str_step(seq![c2], spec_scan_str(v@.skip(pos + 2))));
                        lemma_str_step_assoc(out0, seq![c2], spec_scan_str(v@.skip(pos + 2)));
                        assert(out0 + seq![c2] =~= out@);
                    }
                    pos += 2;
                },
            }
        } else if c == '\n' || c == '\r' || c == '\t' {
            return None;
        } else {
            let ghost out0 = out@;
            out.push(c);
            proof {
                assert(sp.skip(1) =~= v@.skip(pos + 1));
                assert(spec_scan_str(sp) == str_step(seq![c], spec_scan_str(v@.skip(pos + 1))));
                lemma_str_step_assoc(out0, seq![c], spec_scan_str(v@.skip(pos + 1)));
                assert(out0 + seq![c] =~= out@);
            }
            pos += 1;
        }
    }
}

/// Checks that a fixed piece of the grammar stands at `start`.
fn expect(v: &Vec<char>, start: usize, lit: &str) -> (r: Option<usize>)
    requires
        start <= v.len(),
    ensures
        r matches Some(j) ==> lit@.is_prefix_of(v@.skip(start as int))
            && j == start + lit@.len() && j <= v@.len(),
        r is None ==> !lit@.is_prefix_of(v@.skip(start as int)),
{
    let n = lit.unicode_len();
    let vlen = v.len();
    if vlen - start < n {
        return None;
    }
    let mut k: usize = 0;
    while k < n
        invariant
            k <= n,
            n == lit@.len(),
            vlen == v@.len(),
            start + n <= vlen,
            forall|m: int| 0 <= m < k ==> lit@[m] == v@[start + m],
        decreases n - k,
    {
        if lit.get_char(k) != v[start + k] {
            proof {
                assert(v@.skip(start as int)[k as int] == v@[start + k]);
            }
            return None;
        }
        k += 1;
    }
    proof {
        assert(lit@ =~= v@.skip(start as int).subrange(0, n as int));
    }
    Some(start + n)
}

/// Relies on `String::from_iter`: collecting characters yields the string
/// of exactly those characters.
#[verifier::external_body]
pub(crate) fn chars_to_string(v: Vec<char>) -> (s: String)
    ensures
        s@ == v@,
{
    v.into_iter().collect()
}

/// Reads one note at `start`.
#[verifier::rlimit(100)]
fn parse_note(v: &Vec<char>, start: usize) -> (r: Option<(Note, usize)>)
    requires
        start <= v.len(),
    ensures
        match spec_parse_note(v@.skip(start as int)) {
            Some((nv, rest)) => r matches Some((n, j)) && n@ == nv && start <= j <= v@.len()
                && v@.skip(j as int) == rest,
            None => r is None,
        },
{
    proof {
        reveal(spec_parse_note);
        reveal_strlit("{\"id\":");
        reveal_strlit(",\"title\":\"");
        reveal_strlit(",\"text\":\"");
        reveal_strlit(",\"color\":[");
        reveal_strlit("],\"last_edited\":\"");
        assert("{\"id\":"@ =~= lit_id());
        assert(",\"title\":\""@ =~= lit_title());
        assert(",\"text\":\""@ =~= lit_text());
        assert(",\"color\":["@ =~= lit_color());
        assert("],\"last_edited\":\""@ =~= lit_last_edited());
    }
    let ghost s = v@.skip(start as int);
    let p1 = match expect(v, start, "{\"id\":") {
        None => {
            return None;
        },
        Some(j) => j,
    };
    proof {
        assert(v@.skip(p1 as int) =~= s.skip(lit_id().len() as int));
    }
    let (id, p2) = match parse_num(v, p1) {
        None => {
            return None;
        },
        Some(x) => x,
    };
    let p3 = match expect(v, p2, ",\"title\":\"") {
        None => {
            return None;
        },
        Some(j) => j,
    };
    proof {
        assert(v@.skip(p3 as int) =~= v@.skip(p2 as int).skip(lit_title().len() as int));
    }
    let (title, p4) = match parse_string(v, p3) {
        None => {
            return None;
        },
        Some(x) => x,
    };
    let p5 = match expect(v, p4, ",\"text\":\"") {
        None => {
            return None;
        },
        Some(j) => j,
    };
    proof {
        assert(v@.skip(p5 as int) =~= v@.skip(p4 as int).skip(lit_text().len() as int));
    }
    let (text, p6) = match parse_string(v, p5) {
        None => {
            return None;
        },
        Some(x) => x,
    };
    let p7 = match expect(v, p6, ",\"color\":[") {
        None => {
            return None;
        },
        Some(j) => j,
    };
    proof {
        assert(v@.skip(p7 as int) =~= v@.skip(p6 as int).skip(lit_color().len() as int));
    }
    let (red, p8) = match parse_num(v, p7) {
        None => {
            return None;
        },
        Some(x) => x,
    };
    if red > 255 {
        return None;
    }
    if p8 == v.len() || v[p8] != ',' {
        proof {
            if p8 < v.len() {
                assert(v@.skip(p8 as int)[0] == v@[p8 as int]);
            }
        }
        return None;
    }
    proof {
        assert(v@.skip(p8 as int)[0] == ',');
        assert(v@.skip(p8 as int).skip(1) =~= v@.skip(p8 + 1));
    }
    let (green, p9) = match parse_num(v, p8 + 1) {
        None => {
            return None;
        },
        Some(x) => x,
    };
    if green > 255 {
        return None;
    }
    if p9 == v.len() || v[p9] != ',' {
        proof {
            if p9 < v.len() {
                assert(v@.skip(p9 as int)[0] == v@[p9 as int]);
            }
        }
        return None;
    }
    proof {
        assert(v@.skip(p9 as int)[0] == ',');
        assert(v@.skip(p9 as int).skip(1) =~= v@.skip(p9 + 1));
    }
    let (blue, p10) = match parse_num(v, p9 + 1) {
        None => {
            return None;
        },
        Some(x) => x,
    };
    if blue > 255 {
        return None;
    }
    let p11 = match expect(v, p10, "],\"last_edited\":\"") {
        None => {
            return None;
        },
        Some(j) => j,
    };
    proof {
        assert(v@.skip(p11 as int) =~= v@.skip(p10 as int).skip(lit_last_edited().len() as int));
    }
    let (stamp, p12) = match parse_string(v, p11) {
        None => {
            return None;
        },
        Some(x) => x,
    };
    if p12 == v.len() || v[p12] != '}' {
        proof {
            if p12 < v.len() {
                assert(v@.skip(p12 as int)[0] == v@[p12 as int]);
            }
        }
        return None;
    }
    proof {
        assert(v@.skip(p12 as int)[0] == '}');
        assert(v@.skip(p12 as int).skip(1) =~= v@.skip(p12 + 1));
    }
    assert(id <= i32::MAX as u32);
    let note = Note {
        id: id as i32,
        title: chars_to_string(title),
        text: chars_to_string(text),
        last_edited: chars_to_string(stamp),
        color: Color { red: red as u8, green: green as u8, blue: blue as u8 },
    };
    Some((note, p12 + 1))
}

/// Decodes a whole persisted text, exactly as `spec_decode` reads it: the
/// notes on success, `DecodeError` on any text that no note list encodes to.
pub fn decode_notes(v: &Vec<char>) -> (r: Result<Vec<Note>, NoteError>)
    ensures
        match spec_decode(v@) {
            Some(ns) => r matches Ok(notes) && views(notes@) == ns && all_valid(ns),
            None => r matches Err(e) && e == NoteError::DecodeError,
        },
{
    proof {
        lemma_encode_of_decode(v@);
    }
    if v.len() == 0 || v[0] != '[' {
        return Err(NoteError::DecodeError);
    }
    proof {
        if v@.len() >= 2 {
            assert(v@.skip(1)[0] == v@[1]);
        }
    }
    if v.len() >= 2 && v[1] == ']' {
        if v.len() == 2 {
            let notes: Vec<Note> = Vec::new();
            proof {
                assert(v@.skip(1).len() == 1);
                assert(views(notes@) =~= Seq::<NoteView>::empty());
            }
            return Ok(notes);
        } else {
            proof {
                assert(v@.skip(1).len() > 1);
            }
            return Err(NoteError::DecodeError);
        }
    }
    let mut notes: Vec<Note> = Vec::new();
    let mut pos: usize = 1;
    proof {
        let r0 = spec_parse_items(v@.skip(1));
        if r0 is Some {
            assert(Seq::<NoteView>::empty() + r0->Some_0.0 =~= r0->Some_0.0);
        }
    }
    loop
        invariant
            1 <= pos <= v@.len(),
            v@.len() > 0 && v@[0] == '[',
            !(v@.len() >= 2 && v@[1] == ']'),
            spec_parse_items(v@.skip(1)) == items_step(views(notes@), spec_parse_items(v@.skip(pos as int))),
            spec_decode(v@) == match spec_parse_items(v@.skip(1)) {
                None => None::<Seq<NoteView>>,
                Some((vs, rest)) => if rest.len() == 0 { Some(vs) } else { None },
            },
        decreases v@.len() - pos,
    {
        let ghost sp = v@.skip(pos as int);
        let parsed = parse_note(v, pos);
        match parsed {
            None => {
                return Err(NoteError::DecodeError);
            },
            Some((note, j)) => {
                proof {
                    lemma_note_sound(sp);
                }
                if j == v.len() {
                    proof {
                        assert(v@.skip(j as int).len() == 0);
                    }
                    return Err(NoteError::DecodeError);
                }
                let c = v[j];
                proof {
                    assert(v@.skip(j as int)[0] == c);
                }
                if c == ']' {
                    let ghost vs0 = views(notes@);
                    notes.push(note);
                    proof {
                        assert(views(notes@) =~= vs0.push(note@));
                        assert(vs0.push(note@) =~= vs0 + seq![note@]);
                        assert(v@.skip(j as int).skip(1) =~= v@.skip(j + 1));
                        assert(spec_parse_items(sp) == Some((seq![note@], v@.skip(j + 1))));
                    }
                    let end = j + 1;
                    if end == v.len() {
                        proof {
                            assert(v@.skip(end as int).len() == 0);
                            assert(spec_parse_items(v@.skip(1))
                                == Some((views(notes@), v@.skip(end as int))));
                            lemma_encode_of_decode(v@);
                        }
                        return Ok(notes);
                    } else {
                        proof {
                            assert(v@.skip(end as int).len() > 0);
                        }
                        return Err(NoteError::DecodeError);
                    }
                } else if c == ',' {
                    let ghost vs0 = views(notes@);
                    notes.push(note);
                    proof {
                        assert(views(notes@) =~= vs0.push(note@));
                        assert(vs0.push(note@) =~= vs0 + seq![note@]);
                        assert(v@.skip(j as int).skip(1) =~= v@.skip(j + 1));
                        assert(spec_parse_items(sp)
                            == items_step(seq![note@], spec_parse_items(v@.skip(j + 1))));
                        let r1 = spec_parse_items(v@.skip(j + 1));
                        if r1 is Some {
                            assert(vs0 + (seq![note@] + r1->Some_0.0)
                                =~= (vs0 + seq![note@]) + r1->Some_0.0);
                        }
                    }
                    pos = j + 1;
                } else {
                    return Err(NoteError::DecodeError);
                }
            },
        }
    }
}

/// Turns persisted text into the notes it encodes.
pub fn load_notes(s: &str) -> (r: Result<Vec<Note>, NoteError>)
    ensures
        match spec_decode(s@) {
            Some(ns) => r matches Ok(notes) && views(notes@) == ns && all_valid(ns),
            None => r matches Err(e) && e == NoteError::DecodeError,
        },
{
    let n = s.unicode_len();
    let mut v: Vec<char> = Vec::new();
    let mut i: usize = 0;
    proof {
        assert(v@ =~= s@.take(0));
    }
    while i < n
        invariant
            i <= n,
            n == s@.len(),
            v@ == s@.take(i as int),
        decreases n - i,
    {
        v.push(s.get_char(i));
        proof {
            assert(s@.take(i as int).push(s@[i as int]) =~= s@.take(i + 1));
        }
        i += 1;
    }
    proof {
        assert(s@.take(n as int) =~= s@);
    }
    decode_notes(&v)
}

/// Writes the whole note list as persisted text.
pub fn save_notes(notes: &Vec<Note>) -> (r: String)
    requires
        all_valid(views(notes@)),
    ensures
        r@ == spec_encode(views(notes@)),
{
    chars_to_string(encode_notes(notes))
}

} // verus!
