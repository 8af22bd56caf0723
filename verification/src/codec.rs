//! The wire codec: one line per message.
//!
//! A message is a sequence of space-separated fields.  Numbers are
//! decimal tokens; strings are length-prefixed and escaped so that no
//! encoded line ever contains a newline; binary bodies travel in base64.
//! The grammar lives in spec-level parsing functions over character
//! sequences; the encoder proves that parsing its output yields the
//! message it was given, so every encoded message round-trips.
use vstd::prelude::*;

verus! {

/// A decimal digit.
pub open spec fn is_digit(c: char) -> bool {
    48 <= c as u32 && c as u32 <= 57
}

/// The value of one digit character.
pub open spec fn digit_val(c: char) -> nat {
    (c as u32 - 48) as nat
}

/// Every character of the sequence is a digit.
pub open spec fn all_digits(t: Seq<char>) -> bool {
    forall|i: int| 0 <= i < t.len() ==> is_digit(#[trigger] t[i])
}

/// The value of a digit sequence read in base ten.
pub open spec fn dec_val(t: Seq<char>) -> nat
    decreases t.len(),
{
    if t.len() == 0 {
        0
    } else {
        dec_val(t.drop_last()) * 10 + digit_val(t.last())
    }
}

/// A longer digit sequence never has a smaller value.
pub proof fn lemma_dec_val_prefix(t: Seq<char>, i: int)
    requires
        0 <= i <= t.len(),
    ensures
        dec_val(t.subrange(0, i)) <= dec_val(t),
    decreases t.len() - i,
{
    if i < t.len() {
        lemma_dec_val_prefix(t, i + 1);
        assert(t.subrange(0, i + 1).drop_last() =~= t.subrange(0, i));
        assert(t.subrange(0, i + 1).last() == t[i]);
    } else {
        assert(t.subrange(0, i) =~= t);
    }
}

/// The index of the first separator, or the length if there is none.
pub open spec fn first_sep(s: Seq<char>) -> int
    decreases s.len(),
{
    if s.len() == 0 {
        0
    } else if s[0] == ' ' {
        0
    } else {
        1 + first_sep(s.subrange(1, s.len() as int))
    }
}

/// The first field of the stream.
pub open spec fn token_of(s: Seq<char>) -> Seq<char> {
    s.subrange(0, first_sep(s))
}

/// The stream after the first field and its separator.
pub open spec fn rest_after(s: Seq<char>) -> Seq<char> {
    if first_sep(s) < s.len() {
        s.subrange(first_sep(s) + 1, s.len() as int)
    } else {
        Seq::empty()
    }
}

/// The first separator is the first space: nothing before it is a
/// space, and it is in range.
pub proof fn lemma_first_sep(s: Seq<char>)
    ensures
        0 <= first_sep(s) <= s.len(),
        forall|k: int| 0 <= k < first_sep(s) ==> s[k] != ' ',
        first_sep(s) < s.len() ==> s[first_sep(s)] == ' ',
    decreases s.len(),
{
    if s.len() > 0 && s[0] != ' ' {
        let t = s.subrange(1, s.len() as int);
        lemma_first_sep(t);
        assert forall|k: int| 0 <= k < first_sep(s) implies s[k] != ' ' by {
            if k > 0 {
                assert(s[k] == t[k - 1]);
            }
        }
    }
}

/// Fields are glued together with one space, unless nothing follows.
pub open spec fn glue(a: Seq<char>, b: Seq<char>) -> Seq<char> {
    if b.len() == 0 {
        a
    } else {
        a + seq![' '] + b
    }
}

/// A sequence without spaces glued in front of a stream is exactly its
/// first field.
pub proof fn lemma_take_token(t: Seq<char>, b: Seq<char>)
    requires
        forall|k: int| 0 <= k < t.len() ==> t[k] != ' ',
    ensures
        token_of(glue(t, b)) == t,
        rest_after(glue(t, b)) == b,
{
    let s = glue(t, b);
    lemma_first_sep(s);
    if b.len() == 0 {
        assert(first_sep(s) == s.len() as int) by {
            if first_sep(s) < s.len() {
                assert(s[first_sep(s)] == ' ');
                assert(s[first_sep(s)] == t[first_sep(s)]);
            }
        }
        assert(token_of(s) =~= t);
        assert(rest_after(s) =~= b);
    } else {
        assert(s[t.len() as int] == ' ');
        assert(first_sep(s) == t.len() as int) by {
            if first_sep(s) < t.len() {
                assert(s[first_sep(s)] == ' ');
                assert(s[first_sep(s)] == t[first_sep(s)]);
            }
            if first_sep(s) > t.len() {
                assert(s[t.len() as int] != ' ');
            }
        }
        assert(token_of(s) =~= t);
        assert(rest_after(s) =~= b);
    }
}

/// One escaped character: backslash and newline travel as two-character
/// escapes, everything else as itself.
pub open spec fn esc1(c: char) -> Seq<char> {
    if c == '\\' {
        seq!['\\', '\\']
    } else if c == '\n' {
        seq!['\\', 'n']
    } else {
        seq![c]
    }
}

/// The escaped form of a string.
pub open spec fn spec_escape(s: Seq<char>) -> Seq<char>
    decreases s.len(),
{
    if s.len() == 0 {
        Seq::empty()
    } else {
        esc1(s[0]) + spec_escape(s.subrange(1, s.len() as int))
    }
}

/// Undo the escaping; fails on a stray backslash or a raw newline.
pub open spec fn spec_unescape(e: Seq<char>) -> Option<Seq<char>>
    decreases e.len(),
{
    if e.len() == 0 {
        Some(Seq::empty())
    } else if e[0] == '\\' {
        if e.len() >= 2 && (e[1] == '\\' || e[1] == 'n') {
            let c = if e[1] == '\\' {
                '\\'
            } else {
                '\n'
            };
            match spec_unescape(e.subrange(2, e.len() as int)) {
                Some(t) => Some(seq![c] + t),
                None => None,
            }
        } else {
            None
        }
    } else if e[0] == '\n' {
        None
    } else {
        match spec_unescape(e.subrange(1, e.len() as int)) {
            Some(t) => Some(seq![e[0]] + t),
            None => None,
        }
    }
}

/// Unescaping inverts escaping.
pub proof fn lemma_unescape_escape(s: Seq<char>)
    ensures
        spec_unescape(spec_escape(s)) == Some(s),
    decreases s.len(),
{
    if s.len() > 0 {
        let tail = s.subrange(1, s.len() as int);
        lemma_unescape_escape(tail);
        let e = spec_escape(s);
        if s[0] == '\\' || s[0] == '\n' {
            assert(e.subrange(2, e.len() as int) =~= spec_escape(tail));
            assert(seq![s[0]] + tail =~= s);
        } else {
            assert(e[0] == s[0]);
            assert(e.subrange(1, e.len() as int) =~= spec_escape(tail));
            assert(seq![s[0]] + tail =~= s);
        }
    }
}

/// Escaping a string one character longer appends that character's
/// escape.
pub proof fn lemma_escape_push(s: Seq<char>, c: char)
    ensures
        spec_escape(s.push(c)) == spec_escape(s) + esc1(c),
    decreases s.len(),
{
    if s.len() == 0 {
        let t = s.push(c);
        assert(t.len() == 1);
        assert(t[0] == c);
        assert(t.subrange(1, 1) =~= Seq::<char>::empty());
        assert(spec_escape(t) == esc1(t[0]) + spec_escape(t.subrange(1, 1)));
        assert(spec_escape(t.subrange(1, 1)) =~= Seq::<char>::empty());
        assert(spec_escape(t) =~= esc1(c));
        assert(spec_escape(s) =~= Seq::<char>::empty());
        assert(spec_escape(s) + esc1(c) =~= esc1(c));
    } else {
        let t = s.push(c);
        assert(t[0] == s[0]);
        assert(t.subrange(1, t.len() as int) =~= s.subrange(1, s.len() as int).push(c));
        lemma_escape_push(s.subrange(1, s.len() as int), c);
        assert(spec_escape(t) =~= spec_escape(s) + esc1(c));
    }
}

/// Glueing a first chunk and a separator onto a nonempty tail chunk
/// associates with glueing the streams.
pub proof fn lemma_glue_assoc(a: Seq<char>, c: Seq<char>, b: Seq<char>)
    requires
        c.len() > 0,
    ensures
        glue(a + seq![' '] + c, b) == glue(a, glue(c, b)),
{
    assert(glue(a + seq![' '] + c, b) =~= glue(a, glue(c, b)));
}

/// Parse a decimal number field.
pub open spec fn p_num(s: Seq<char>) -> Option<(nat, Seq<char>)> {
    let t = token_of(s);
    if t.len() > 0 && all_digits(t) {
        Some((dec_val(t), rest_after(s)))
    } else {
        None
    }
}

/// Parse a number that fits an index.
pub open spec fn p_usize(s: Seq<char>) -> Option<(nat, Seq<char>)> {
    match p_num(s) {
        Some((v, r)) => if v <= usize::MAX as nat {
            Some((v, r))
        } else {
            None
        },
        None => None,
    }
}

/// Parse a number that fits a timestamp.
pub open spec fn p_u64(s: Seq<char>) -> Option<(nat, Seq<char>)> {
    match p_num(s) {
        Some((v, r)) => if v <= u64::MAX as nat {
            Some((v, r))
        } else {
            None
        },
        None => None,
    }
}

/// A digit field glued onto a stream parses to its value.
pub proof fn lemma_p_num(t: Seq<char>, b: Seq<char>)
    requires
        t.len() > 0,
        all_digits(t),
    ensures
        p_num(glue(t, b)) == Some((dec_val(t), b)),
{
    assert forall|k: int| 0 <= k < t.len() implies t[k] != ' ' by {
        assert(is_digit(t[k]));
        assert(' ' as u32 == 32);
    }
    lemma_take_token(t, b);
}

/// The length of the longest digit run at the head of the stream.
pub open spec fn digit_run(s: Seq<char>) -> int
    decreases s.len(),
{
    if s.len() == 0 {
        0
    } else if is_digit(s[0]) {
        1 + digit_run(s.subrange(1, s.len() as int))
    } else {
        0
    }
}

/// The digit run is the first stretch of digits: everything before it is
/// a digit and its end is the end or a non-digit.
pub proof fn lemma_digit_run(s: Seq<char>)
    ensures
        0 <= digit_run(s) <= s.len(),
        forall|k: int| 0 <= k < digit_run(s) ==> is_digit(#[trigger] s[k]),
        digit_run(s) < s.len() ==> !is_digit(s[digit_run(s)]),
    decreases s.len(),
{
    if s.len() > 0 && is_digit(s[0]) {
        let t = s.subrange(1, s.len() as int);
        lemma_digit_run(t);
        assert forall|k: int| 0 <= k < digit_run(s) implies is_digit(#[trigger] s[k]) by {
            if k > 0 {
                assert(s[k] == t[k - 1]);
            }
        }
    }
}

/// The digit run of a stream that starts with known digits followed by a
/// non-digit is exactly those digits.
pub proof fn lemma_digit_run_is(s: Seq<char>, i: int)
    requires
        0 <= i <= s.len(),
        forall|k: int| 0 <= k < i ==> is_digit(#[trigger] s[k]),
        i < s.len() ==> !is_digit(s[i]),
    ensures
        digit_run(s) == i,
    decreases s.len(),
{
    if s.len() > 0 && is_digit(s[0]) {
        let t = s.subrange(1, s.len() as int);
        assert forall|k: int| 0 <= k < i - 1 implies is_digit(#[trigger] t[k]) by {
            assert(t[k] == s[k + 1]);
        }
        lemma_digit_run_is(t, i - 1);
    }
}

/// Parse a length-prefixed, escaped string field: decimal length, one
/// colon, then exactly that many escaped characters.
pub open spec fn p_str(s: Seq<char>) -> Option<(Seq<char>, Seq<char>)> {
    let d = digit_run(s);
    if d > 0 && d < s.len() && s[d] == ':' && dec_val(s.subrange(0, d)) <= usize::MAX as nat {
        let n = dec_val(s.subrange(0, d)) as int;
        if d + 1 + n <= s.len() {
            let esc = s.subrange(d + 1, d + 1 + n);
            match spec_unescape(esc) {
                Some(x) => {
                    let rest0 = s.subrange(d + 1 + n, s.len() as int);
                    if rest0.len() == 0 {
                        Some((x, rest0))
                    } else if rest0[0] == ' ' {
                        Some((x, rest0.subrange(1, rest0.len() as int)))
                    } else {
                        None
                    }
                },
                None => None,
            }
        } else {
            None
        }
    } else {
        None
    }
}

/// A well-formed string field glued onto a stream parses back to the
/// string it encodes.
pub proof fn lemma_p_str(x: Seq<char>, num: Seq<char>, b: Seq<char>)
    requires
        num.len() > 0,
        all_digits(num),
        dec_val(num) == spec_escape(x).len(),
        spec_escape(x).len() <= usize::MAX as nat,
    ensures
        p_str(glue(num + seq![':'] + spec_escape(x), b)) == Some((x, b)),
{
    let esc = spec_escape(x);
    let chunk = num + seq![':'] + esc;
    let s = glue(chunk, b);
    let n = esc.len() as int;
    assert(':' as u32 == 58);
    assert(s[num.len() as int] == ':');
    assert(digit_run(s) == num.len() as int) by {
        assert forall|k: int| 0 <= k < num.len() implies is_digit(#[trigger] s[k]) by {
            assert(s[k] == num[k]);
        }
        lemma_digit_run_is(s, num.len() as int);
    }
    let d = num.len() as int;
    assert(s.subrange(0, d) =~= num);
    assert(s.subrange(d + 1, d + 1 + n) =~= esc);
    lemma_unescape_escape(x);
    let rest0 = s.subrange(d + 1 + n, s.len() as int);
    if b.len() == 0 {
        assert(rest0 =~= b);
    } else {
        assert(rest0[0] == ' ');
        assert(rest0.subrange(1, rest0.len() as int) =~= b);
    }
}

/// Parse a boolean field.
pub open spec fn p_bool(s: Seq<char>) -> Option<(bool, Seq<char>)> {
    let t = token_of(s);
    if t == "true"@ {
        Some((true, rest_after(s)))
    } else if t == "false"@ {
        Some((false, rest_after(s)))
    } else {
        None
    }
}

/// Parse an optional index: `none`, or `some` and a number.
pub open spec fn p_opt_usize(s: Seq<char>) -> Option<(Option<nat>, Seq<char>)> {
    let t = token_of(s);
    if t == "none"@ {
        Some((None, rest_after(s)))
    } else if t == "some"@ {
        match p_usize(rest_after(s)) {
            Some((v, r)) => Some((Some(v), r)),
            None => None,
        }
    } else {
        None
    }
}

/// Parse an optional group name: `none`, or `some` and a string.
pub open spec fn p_opt_str(s: Seq<char>) -> Option<(Option<Seq<char>>, Seq<char>)> {
    let t = token_of(s);
    if t == "none"@ {
        Some((None, rest_after(s)))
    } else if t == "some"@ {
        match p_str(rest_after(s)) {
            Some((v, r)) => Some((Some(v), r)),
            None => None,
        }
    } else {
        None
    }
}

/// A character of the base64 alphabet, padding included.
pub open spec fn is_b64_char(c: char) -> bool {
    (65 <= c as u32 && c as u32 <= 90) || (97 <= c as u32 && c as u32 <= 122) || (48 <= c as u32
        && c as u32 <= 57) || c as u32 == 43 || c as u32 == 47 || c as u32 == 61
}

/// The base64 rendering of a byte sequence, as the base64 crate's
/// standard engine computes it.  The result depends on the bytes alone.
pub uninterp spec fn b64_of(bytes: Seq<u8>) -> Seq<char>;

/// What the base64 crate's standard engine decodes a string to: the
/// bytes, or nothing when the string is not a valid encoding.  The
/// result depends on the characters alone.
pub uninterp spec fn b64_decode_of(s: Seq<char>) -> Option<Seq<u8>>;

/// Relies on base64's `BASE64_STANDARD.encode`: the standard-alphabet
/// encoding of the bytes, a function of the bytes alone.  Its output is
/// drawn from the 64-character alphabet plus `=` padding, it is nonempty
/// for nonempty input, and the same engine's decode inverts it.
#[verifier::external_body]
fn b64_encode(bytes: &Vec<u8>) -> (r: String)
    ensures
        r@ == b64_of(bytes@),
        b64_decode_of(r@) == Some(bytes@),
        forall|i: int| 0 <= i < r@.len() ==> is_b64_char(#[trigger] r@[i]),
        bytes@.len() > 0 ==> r@.len() > 0,
{
    base64::Engine::encode(&base64::prelude::BASE64_STANDARD, bytes)
}

/// Relies on base64's `BASE64_STANDARD.decode`: the bytes a string
/// encodes, or an error when it is not a valid encoding; a function of
/// the characters alone.
#[verifier::external_body]
fn b64_decode(s: &str) -> (r: Option<Vec<u8>>)
    ensures
        match r {
            Some(b) => b64_decode_of(s@) == Some(b@),
            None => b64_decode_of(s@) is None,
        },
{
    match base64::Engine::decode(&base64::prelude::BASE64_STANDARD, s.as_bytes()) {
        Ok(b) => Some(b),
        Err(_) => None,
    }
}

/// Relies on `String::push`: appends one character.
#[verifier::external_body]
pub(crate) fn push_char(s: &mut String, c: char)
    ensures
        final(s)@ == old(s)@.push(c),
{
    s.push(c);
}

/// Parse a binary body field: `-` for no bytes, else a base64 token.
pub open spec fn p_bytes(s: Seq<char>) -> Option<(Seq<u8>, Seq<char>)> {
    let t = token_of(s);
    if t == "-"@ {
        Some((Seq::empty(), rest_after(s)))
    } else if t.len() > 0 {
        match b64_decode_of(t) {
            Some(bytes) => Some((bytes, rest_after(s))),
            None => None,
        }
    } else {
        None
    }
}

/// Parse a body: a tagged text string or a tagged binary field.
pub open spec fn p_body(s: Seq<char>) -> Option<(crate::clip::BodyV, Seq<char>)> {
    let t = token_of(s);
    let r = rest_after(s);
    if t == "text"@ {
        match p_str(r) {
            Some((x, r2)) => Some((crate::clip::BodyV::Text(x), r2)),
            None => None,
        }
    } else if t == "data"@ {
        match p_bytes(r) {
            Some((bytes, r2)) => Some((crate::clip::BodyV::Data(bytes), r2)),
            None => None,
        }
    } else {
        None
    }
}

/// Parse `n` string fields.
pub open spec fn p_strs(s: Seq<char>, n: nat) -> Option<(Seq<Seq<char>>, Seq<char>)>
    decreases n,
{
    if n == 0 {
        Some((Seq::empty(), s))
    } else {
        match p_str(s) {
            Some((x, r)) => match p_strs(r, (n - 1) as nat) {
                Some((xs, r2)) => Some((seq![x] + xs, r2)),
                None => None,
            },
            None => None,
        }
    }
}

/// Parse an entry: the count of MIME hints, the hints, then the body.
pub open spec fn p_entry(s: Seq<char>) -> Option<(crate::clip::EntryV, Seq<char>)> {
    match p_usize(s) {
        Some((n, r)) => match p_strs(r, n) {
            Some((mimes, r2)) => match p_body(r2) {
                Some((body, r3)) => Some((crate::clip::EntryV { mime: mimes, body }, r3)),
                None => None,
            },
            None => None,
        },
        None => None,
    }
}

/// Parse one preview row: index, rendered text, last use.
pub open spec fn p_preview(s: Seq<char>) -> Option<(crate::clip::PreviewV, Seq<char>)> {
    match p_usize(s) {
        Some((ix, r)) => match p_str(r) {
            Some((text, r2)) => match p_u64(r2) {
                Some((lu, r3)) => Some(
                    (
                        crate::clip::PreviewV {
                            index: ix,
                            preview: text,
                            last_used: lu as u64,
                        },
                        r3,
                    ),
                ),
                None => None,
            },
            None => None,
        },
        None => None,
    }
}

/// Parse `n` preview rows.
pub open spec fn p_previews(s: Seq<char>, n: nat) -> Option<
    (Seq<crate::clip::PreviewV>, Seq<char>),
>
    decreases n,
{
    if n == 0 {
        Some((Seq::empty(), s))
    } else {
        match p_preview(s) {
            Some((p, r)) => match p_previews(r, (n - 1) as nat) {
                Some((ps, r2)) => Some((seq![p] + ps, r2)),
                None => None,
            },
            None => None,
        }
    }
}

/// Parse a wipe argument: `all`, or `single` and an index.
pub open spec fn p_wipe(s: Seq<char>) -> Option<(crate::message::WipeV, Seq<char>)> {
    let t = token_of(s);
    if t == "all"@ {
        Some((crate::message::WipeV::All, rest_after(s)))
    } else if t == "single"@ {
        match p_usize(rest_after(s)) {
            Some((v, r)) => Some((crate::message::WipeV::Single { index: v }, r)),
            None => None,
        }
    } else {
        None
    }
}

/// Parse a whole request line.
pub open spec fn p_request(s: Seq<char>) -> Option<crate::message::RequestV> {
    let t = token_of(s);
    let r = rest_after(s);
    if t == "ping"@ {
        if r.len() == 0 {
            Some(crate::message::RequestV::Ping)
        } else {
            None
        }
    } else if t == "stop"@ {
        if r.len() == 0 {
            Some(crate::message::RequestV::Stop)
        } else {
            None
        }
    } else if t == "clear"@ {
        if r.len() == 0 {
            Some(crate::message::RequestV::Clear)
        } else {
            None
        }
    } else if t == "groups"@ {
        if r.len() == 0 {
            Some(crate::message::RequestV::Groups)
        } else {
            None
        }
    } else if t == "copy"@ {
        match p_entry(r) {
            Some((entry, r1)) => match p_bool(r1) {
                Some((primary, r2)) => match p_opt_str(r2) {
                    Some((group, r3)) => match p_opt_usize(r3) {
                        Some((index, r4)) => if r4.len() == 0 {
                            Some(crate::message::RequestV::Copy { entry, primary, group, index })
                        } else {
                            None
                        },
                        None => None,
                    },
                    None => None,
                },
                None => None,
            },
            None => None,
        }
    } else if t == "select"@ {
        match p_usize(r) {
            Some((index, r1)) => match p_bool(r1) {
                Some((primary, r2)) => match p_opt_str(r2) {
                    Some((group, r3)) => if r3.len() == 0 {
                        Some(crate::message::RequestV::Select { index, primary, group })
                    } else {
                        None
                    },
                    None => None,
                },
                None => None,
            },
            None => None,
        }
    } else if t == "list"@ {
        match p_usize(r) {
            Some((length, r1)) => match p_opt_str(r1) {
                Some((group, r2)) => if r2.len() == 0 {
                    Some(crate::message::RequestV::List { length, group })
                } else {
                    None
                },
                None => None,
            },
            None => None,
        }
    } else if t == "delete"@ {
        match p_usize(r) {
            Some((index, r1)) => match p_opt_str(r1) {
                Some((group, r2)) => if r2.len() == 0 {
                    Some(crate::message::RequestV::Delete { index, group })
                } else {
                    None
                },
                None => None,
            },
            None => None,
        }
    } else if t == "find"@ {
        match p_opt_usize(r) {
            Some((index, r1)) => match p_opt_str(r1) {
                Some((group, r2)) => if r2.len() == 0 {
                    Some(crate::message::RequestV::Find { index, group })
                } else {
                    None
                },
                None => None,
            },
            None => None,
        }
    } else if t == "wipe"@ {
        match p_wipe(r) {
            Some((wipe, r1)) => match p_opt_str(r1) {
                Some((group, r2)) => if r2.len() == 0 {
                    Some(crate::message::RequestV::Wipe { wipe, group })
                } else {
                    None
                },
                None => None,
            },
            None => None,
        }
    } else {
        None
    }
}

/// Parse a whole response line.
pub open spec fn p_response(s: Seq<char>) -> Option<crate::message::ResponseV> {
    let t = token_of(s);
    let r = rest_after(s);
    if t == "ok"@ {
        if r.len() == 0 {
            Some(crate::message::ResponseV::Okay)
        } else {
            None
        }
    } else if t == "error"@ {
        match p_str(r) {
            Some((error, r1)) => if r1.len() == 0 {
                Some(crate::message::ResponseV::Error { error })
            } else {
                None
            },
            None => None,
        }
    } else if t == "groups"@ {
        match p_usize(r) {
            Some((n, r1)) => match p_strs(r1, n) {
                Some((groups, r2)) => if r2.len() == 0 {
                    Some(crate::message::ResponseV::Groups { groups })
                } else {
                    None
                },
                None => None,
            },
            None => None,
        }
    } else if t == "entry"@ {
        match p_entry(r) {
            Some((entry, r1)) => match p_usize(r1) {
                Some((index, r2)) => if r2.len() == 0 {
                    Some(crate::message::ResponseV::Entry { entry, index })
                } else {
                    None
                },
                None => None,
            },
            None => None,
        }
    } else if t == "previews"@ {
        match p_usize(r) {
            Some((n, r1)) => match p_previews(r1, n) {
                Some((previews, r2)) => if r2.len() == 0 {
                    Some(crate::message::ResponseV::Previews { previews })
                } else {
                    None
                },
                None => None,
            },
            None => None,
        }
    } else {
        None
    }
}

/// No character of the sequence is a newline.
pub open spec fn no_nl(s: Seq<char>) -> bool {
    forall|i: int| 0 <= i < s.len() ==> (#[trigger] s[i]) != '\n'
}

/// Collect the characters of a string slice.
pub fn str_to_chars(s: &str) -> (v: Vec<char>)
    ensures
        v@ == s@,
{
    let n = s.unicode_len();
    let mut v: Vec<char> = Vec::new();
    let mut i: usize = 0;
    while i < n
        invariant
            i <= n,
            n == s@.len(),
            v@ == s@.subrange(0, i as int),
        decreases n - i,
    {
        v.push(s.get_char(i));
        i = i + 1;
        proof {
            assert(v@ =~= s@.subrange(0, i as int));
        }
    }
    proof {
        assert(v@ =~= s@);
    }
    v
}

/// Build a string from a sequence of characters.
pub fn chars_to_string(v: &Vec<char>) -> (s: String)
    ensures
        s@ == v@,
{
    let mut s = String::new();
    let mut i: usize = 0;
    while i < v.len()
        invariant
            i <= v.len(),
            s@ == v@.subrange(0, i as int),
        decreases v.len() - i,
    {
        push_char(&mut s, v[i]);
        i = i + 1;
        proof {
            assert(s@ =~= v@.subrange(0, i as int));
        }
    }
    proof {
        assert(s@ =~= v@);
    }
    s
}

/// The digit character of one decimal digit.
fn digit_char(d: u64) -> (c: char)
    requires
        d < 10,
    ensures
        is_digit(c),
        digit_val(c) == d,
        c != '\n',
        c != ' ',
{
    if d == 0 {
        '0'
    } else if d == 1 {
        '1'
    } else if d == 2 {
        '2'
    } else if d == 3 {
        '3'
    } else if d == 4 {
        '4'
    } else if d == 5 {
        '5'
    } else if d == 6 {
        '6'
    } else if d == 7 {
        '7'
    } else if d == 8 {
        '8'
    } else {
        '9'
    }
}

/// Render a number as decimal digits.
fn emit_num(v: u64) -> (out: Vec<char>)
    ensures
        out@.len() > 0,
        all_digits(out@),
        dec_val(out@) == v as nat,
        no_nl(out@),
    decreases v,
{
    if v < 10 {
        let c = digit_char(v);
        let mut out: Vec<char> = Vec::new();
        out.push(c);
        proof {
            assert(out@.drop_last() =~= Seq::<char>::empty());
            assert(out@.last() == c);
            assert(dec_val(Seq::<char>::empty()) == 0);
            assert(dec_val(out@) == 0 * 10 + digit_val(c));
        }
        out
    } else {
        let mut out = emit_num(v / 10);
        let ghost prev = out@;
        let c = digit_char(v % 10);
        out.push(c);
        proof {
            assert(out@.drop_last() =~= prev);
            assert(out@.last() == c);
            assert(dec_val(out@) == dec_val(prev) * 10 + digit_val(c));
            assert(v as nat == (v / 10) as nat * 10 + (v % 10) as nat) by (nonlinear_arith);
        }
        out
    }
}

/// The escaped form of a string, as characters.
fn escape_chars(x: &str) -> (out: Vec<char>)
    ensures
        out@ == spec_escape(x@),
{
    let chars = str_to_chars(x);
    let mut out: Vec<char> = Vec::new();
    let mut i: usize = 0;
    while i < chars.len()
        invariant
            i <= chars.len(),
            chars@ == x@,
            out@ == spec_escape(x@.subrange(0, i as int)),
        decreases chars.len() - i,
    {
        let c = chars[i];
        if c == '\\' {
            out.push('\\');
            out.push('\\');
        } else if c == '\n' {
            out.push('\\');
            out.push('n');
        } else {
            out.push(c);
        }
        proof {
            lemma_escape_push(x@.subrange(0, i as int), c);
            assert(x@.subrange(0, i as int).push(c) =~= x@.subrange(0, i + 1));
            assert(out@ =~= spec_escape(x@.subrange(0, i as int)) + esc1(c));
        }
        i = i + 1;
    }
    proof {
        assert(x@.subrange(0, x@.len() as int) =~= x@);
    }
    out
}

/// Render a string field: the escaped length, a colon, the escaped text.
fn emit_str(x: &str) -> (out: Vec<char>)
    ensures
        out@.len() > 0,
        no_nl(out@),
        forall|b: Seq<char>| #[trigger] p_str(glue(out@, b)) == Some((x@, b)),
{
    let mut esc = escape_chars(x);
    let mut out = emit_num(esc.len() as u64);
    let ghost num = out@;
    out.push(':');
    out.append(&mut esc);
    proof {
        assert(out@ =~= num + seq![':'] + spec_escape(x@));
        lemma_escape_no_newline(x@);
        assert forall|b: Seq<char>| #[trigger] p_str(glue(out@, b)) == Some((x@, b)) by {
            lemma_p_str(x@, num, b);
        }
        assert(':' as u32 == 58);
        assert forall|i: int| 0 <= i < out@.len() implies (#[trigger] out@[i]) != '\n' by {
            if i < num.len() {
                assert(is_digit(num[i]));
                assert('\n' as u32 == 10);
            } else if i > num.len() {
                assert(out@[i] == spec_escape(x@)[i - num.len() - 1]);
            }
        }
    }
    out
}

/// Render a boolean field.
fn emit_bool(v: bool) -> (out: Vec<char>)
    ensures
        out@.len() > 0,
        no_nl(out@),
        forall|b: Seq<char>| #[trigger] p_bool(glue(out@, b)) == Some((v, b)),
{
    let out = if v {
        str_to_chars("true")
    } else {
        str_to_chars("false")
    };
    proof {
        reveal_strlit("true");
        reveal_strlit("false");
        assert forall|b: Seq<char>| #[trigger] p_bool(glue(out@, b)) == Some((v, b)) by {
            lemma_take_token(out@, b);
        }
    }
    out
}

/// Render a binary body field.
fn emit_bytes(data: &Vec<u8>) -> (out: Vec<char>)
    ensures
        out@.len() > 0,
        no_nl(out@),
        forall|b: Seq<char>| #[trigger] p_bytes(glue(out@, b)) == Some((data@, b)),
{
    if data.len() == 0 {
        let out = str_to_chars("-");
        proof {
            reveal_strlit("-");
            assert(data@ =~= Seq::<u8>::empty());
            assert forall|b: Seq<char>| #[trigger] p_bytes(glue(out@, b)) == Some((data@, b)) by {
                lemma_take_token(out@, b);
            }
        }
        out
    } else {
        let enc = b64_encode(data);
        let out = str_to_chars(enc.as_str());
        proof {
            reveal_strlit("-");
            assert('\n' as u32 == 10);
            assert(' ' as u32 == 32);
            assert('-' as u32 == 45);
            assert forall|i: int| 0 <= i < out@.len() implies (#[trigger] out@[i]) != ' '
                && out@[i] != '\n' by {
                assert(is_b64_char(out@[i]));
            }
            assert forall|b: Seq<char>| #[trigger] p_bytes(glue(out@, b)) == Some((data@, b)) by {
                lemma_take_token(out@, b);
                assert(out@ != "-"@) by {
                    assert(is_b64_char(out@[0]));
                }
            }
        }
        out
    }
}

/// Render a body: its kind tag and its payload.
fn emit_body(body: &crate::clip::ClipBody) -> (out: Vec<char>)
    ensures
        out@.len() > 0,
        no_nl(out@),
        forall|b: Seq<char>| #[trigger] p_body(glue(out@, b)) == Some((body@, b)),
{
    match body {
        crate::clip::ClipBody::Text(x) => {
            let mut out = str_to_chars("text");
            let mut payload = emit_str(x.as_str());
            let ghost pl = payload@;
            out.push(' ');
            out.append(&mut payload);
            proof {
                reveal_strlit("text");
                reveal_strlit("data");
                assert(out@ =~= "text"@ + seq![' '] + pl);
                assert forall|b: Seq<char>| #[trigger] p_body(glue(out@, b)) == Some((body@, b)) by {
                    lemma_glue_assoc("text"@, pl, b);
                    assert(glue(out@, b) == glue("text"@, glue(pl, b)));
                    lemma_take_token("text"@, glue(pl, b));
                }
            }
            out
        },
        crate::clip::ClipBody::Data(d) => {
            let mut out = str_to_chars("data");
            let mut payload = emit_bytes(d);
            let ghost pl = payload@;
            out.push(' ');
            out.append(&mut payload);
            proof {
                reveal_strlit("text");
                reveal_strlit("data");
                assert(out@ =~= "data"@ + seq![' '] + pl);
                assert forall|b: Seq<char>| #[trigger] p_body(glue(out@, b)) == Some((body@, b)) by {
                    lemma_glue_assoc("data"@, pl, b);
                    assert(glue(out@, b) == glue("data"@, glue(pl, b)));
                    lemma_take_token("data"@, glue(pl, b));
                }
            }
            out
        },
    }
}

/// Render a number field that parses back within index bounds.
pub(crate) fn emit_usize(v: usize) -> (out: Vec<char>)
    ensures
        out@.len() > 0,
        no_nl(out@),
        forall|b: Seq<char>| #[trigger] p_usize(glue(out@, b)) == Some((v as nat, b)),
{
    let out = emit_num(v as u64);
    proof {
        assert forall|b: Seq<char>| #[trigger] p_usize(glue(out@, b)) == Some((v as nat, b)) by {
            lemma_p_num(out@, b);
        }
    }
    out
}

/// Render a number field that parses back within timestamp bounds.
pub(crate) fn emit_u64(v: u64) -> (out: Vec<char>)
    ensures
        out@.len() > 0,
        no_nl(out@),
        forall|b: Seq<char>| #[trigger] p_u64(glue(out@, b)) == Some((v as nat, b)),
{
    let out = emit_num(v);
    proof {
        assert forall|b: Seq<char>| #[trigger] p_u64(glue(out@, b)) == Some((v as nat, b)) by {
            lemma_p_num(out@, b);
        }
    }
    out
}

/// Render an optional index field.
fn emit_opt_usize(v: &Option<usize>) -> (out: Vec<char>)
    ensures
        out@.len() > 0,
        no_nl(out@),
        forall|b: Seq<char>| #[trigger]
            p_opt_usize(glue(out@, b)) == Some((crate::message::idx_view(v), b)),
{
    match v {
        None => {
            let out = str_to_chars("none");
            proof {
                reveal_strlit("none");
                reveal_strlit("some");
                assert forall|b: Seq<char>| #[trigger]
                    p_opt_usize(glue(out@, b)) == Some((crate::message::idx_view(v), b)) by {
                    lemma_take_token(out@, b);
                }
            }
            out
        },
        Some(ix) => {
            let mut out = str_to_chars("some");
            let mut num = emit_usize(*ix);
            let ghost nm = num@;
            out.push(' ');
            out.append(&mut num);
            proof {
                reveal_strlit("none");
                reveal_strlit("some");
                assert(out@ =~= "some"@ + seq![' '] + nm);
                assert forall|b: Seq<char>| #[trigger]
                    p_opt_usize(glue(out@, b)) == Some((crate::message::idx_view(v), b)) by {
                    lemma_glue_assoc("some"@, nm, b);
                    assert(glue(out@, b) == glue("some"@, glue(nm, b)));
                    lemma_take_token("some"@, glue(nm, b));
                }
            }
            out
        },
    }
}

/// Render an optional group field.
fn emit_opt_str(v: &Option<String>) -> (out: Vec<char>)
    ensures
        out@.len() > 0,
        no_nl(out@),
        forall|b: Seq<char>| #[trigger]
            p_opt_str(glue(out@, b)) == Some((crate::message::grp_view(v), b)),
{
    match v {
        None => {
            let out = str_to_chars("none");
            proof {
                reveal_strlit("none");
                reveal_strlit("some");
                assert forall|b: Seq<char>| #[trigger]
                    p_opt_str(glue(out@, b)) == Some((crate::message::grp_view(v), b)) by {
                    lemma_take_token(out@, b);
                }
            }
            out
        },
        Some(name) => {
            let mut out = str_to_chars("some");
            let mut field = emit_str(name.as_str());
            let ghost fl = field@;
            out.push(' ');
            out.append(&mut field);
            proof {
                reveal_strlit("none");
                reveal_strlit("some");
                assert(out@ =~= "some"@ + seq![' '] + fl);
                assert forall|b: Seq<char>| #[trigger]
                    p_opt_str(glue(out@, b)) == Some((crate::message::grp_view(v), b)) by {
                    lemma_glue_assoc("some"@, fl, b);
                    assert(glue(out@, b) == glue("some"@, glue(fl, b)));
                    lemma_take_token("some"@, glue(fl, b));
                }
            }
            out
        },
    }
}

/// Render a wipe argument.
fn emit_wipe(v: &crate::message::Wipe) -> (out: Vec<char>)
    ensures
        out@.len() > 0,
        no_nl(out@),
        forall|b: Seq<char>| #[trigger] p_wipe(glue(out@, b)) == Some((v@, b)),
{
    match v {
        crate::message::Wipe::All => {
            let out = str_to_chars("all");
            proof {
                reveal_strlit("all");
                reveal_strlit("single");
                assert forall|b: Seq<char>| #[trigger] p_wipe(glue(out@, b)) == Some((v@, b)) by {
                    lemma_take_token(out@, b);
                }
            }
            out
        },
        crate::message::Wipe::Single { index } => {
            let mut out = str_to_chars("single");
            let mut num = emit_usize(*index);
            let ghost nm = num@;
            out.push(' ');
            out.append(&mut num);
            proof {
                reveal_strlit("all");
                reveal_strlit("single");
                assert(out@ =~= "single"@ + seq![' '] + nm);
                assert forall|b: Seq<char>| #[trigger] p_wipe(glue(out@, b)) == Some((v@, b)) by {
                    lemma_glue_assoc("single"@, nm, b);
                    assert(glue(out@, b) == glue("single"@, glue(nm, b)));
                    lemma_take_token("single"@, glue(nm, b));
                }
            }
            out
        },
    }
}

/// Parsing the MIME hints and then the body of an entry.
pub open spec fn p_mimes_body(s: Seq<char>, n: nat) -> Option<
    ((Seq<Seq<char>>, crate::clip::BodyV), Seq<char>),
> {
    match p_strs(s, n) {
        Some((xs, r)) => match p_body(r) {
            Some((bd, r2)) => Some(((xs, bd), r2)),
            None => None,
        },
        None => None,
    }
}

/// Render an entry: the count of MIME hints, the hints, the body.
#[verifier::rlimit(30)]
pub(crate) fn emit_entry(e: &crate::clip::Entry) -> (out: Vec<char>)
    ensures
        out@.len() > 0,
        no_nl(out@),
        forall|b: Seq<char>| #[trigger] p_entry(glue(out@, b)) == Some((e@, b)),
{
    let n = e.mime.len();
    let mut tail = emit_body(&e.body);
    proof {
        assert forall|b: Seq<char>| #[trigger]
            p_mimes_body(glue(tail@, b), 0) == Some(((e@.mime.skip(n as int), e@.body), b)) by {
            assert(e@.mime.skip(n as int) =~= Seq::<Seq<char>>::empty());
        }
    }
    let mut i: usize = n;
    while i > 0
        invariant
            i <= n,
            n == e.mime.len(),
            tail@.len() > 0,
            no_nl(tail@),
            forall|b: Seq<char>| #[trigger]
                p_mimes_body(glue(tail@, b), (n - i) as nat) == Some(
                    ((e@.mime.skip(i as int), e@.body), b),
                ),
        decreases i,
    {
        let j = i - 1;
        let mut chunk = emit_str(e.mime[j].as_str());
        let ghost ck = chunk@;
        let ghost prev = tail@;
        let ghost m0: nat = (n - i) as nat;
        chunk.push(' ');
        chunk.append(&mut tail);
        tail = chunk;
        proof {
            assert(tail@ =~= ck + seq![' '] + prev);
            assert(e.mime[j as int]@ == e@.mime[j as int]);
            assert forall|b: Seq<char>| #[trigger]
                p_mimes_body(glue(tail@, b), (n - j) as nat) == Some(
                    ((e@.mime.skip(j as int), e@.body), b),
                ) by {
                lemma_glue_assoc(ck, prev, b);
                assert(glue(tail@, b) == glue(ck, glue(prev, b)));
                assert(p_str(glue(ck, glue(prev, b))) == Some((e@.mime[j as int], glue(prev, b))));
                assert(p_mimes_body(glue(prev, b), m0) == Some(
                    ((e@.mime.skip(i as int), e@.body), b),
                ));
                let m1: nat = (n - j) as nat;
                assert(m1 != 0);
                assert((m1 - 1) as nat == m0);
                assert(p_strs(glue(tail@, b), m1) == (match p_str(glue(tail@, b)) {
                    Some((x, r)) => match p_strs(r, (m1 - 1) as nat) {
                        Some((xs, r2)) => Some((seq![x] + xs, r2)),
                        None => None,
                    },
                    None => None,
                }));
                assert(seq![e@.mime[j as int]] + e@.mime.skip(i as int) =~= e@.mime.skip(
                    j as int,
                ));
            }
        }
        i = j;
    }
    let mut out = emit_usize(n);
    let ghost cnt = out@;
    let ghost tl = tail@;
    out.push(' ');
    out.append(&mut tail);
    proof {
        assert(out@ =~= cnt + seq![' '] + tl);
        assert forall|b: Seq<char>| #[trigger] p_entry(glue(out@, b)) == Some((e@, b)) by {
            lemma_glue_assoc(cnt, tl, b);
            assert(glue(out@, b) == glue(cnt, glue(tl, b)));
            assert(p_usize(glue(cnt, glue(tl, b))) == Some((n as nat, glue(tl, b))));
            assert(p_mimes_body(glue(tl, b), n as nat) == Some(((e@.mime.skip(0), e@.body), b)));
            assert(e@.mime.skip(0) =~= e@.mime);
        }
    }
    out
}

/// Join two rendered chunks with one separating space.
pub(crate) fn prepend(front: Vec<char>, back: Vec<char>) -> (out: Vec<char>)
    ensures
        out@ == front@ + seq![' '] + back@,
{
    let mut f = front;
    let mut b = back;
    f.push(' ');
    f.append(&mut b);
    proof {
        assert(f@ =~= front@ + seq![' '] + back@);
    }
    f
}

/// Render one preview row.
fn emit_preview(p: &crate::clip::Preview) -> (out: Vec<char>)
    ensures
        out@.len() > 0,
        no_nl(out@),
        forall|b: Seq<char>| #[trigger] p_preview(glue(out@, b)) == Some((p@, b)),
{
    let c1 = emit_usize(p.index);
    let c2 = emit_str(p.preview.as_str());
    let c3 = emit_u64(p.last_used);
    let ghost g1 = c1@;
    let ghost g2 = c2@;
    let ghost g3 = c3@;
    let out = prepend(c1, prepend(c2, c3));
    proof {
        assert(out@ =~= g1 + seq![' '] + (g2 + seq![' '] + g3));
        assert forall|b: Seq<char>| #[trigger] p_preview(glue(out@, b)) == Some((p@, b)) by {
            lemma_glue_assoc(g2, g3, b);
            lemma_glue_assoc(g1, g2 + seq![' '] + g3, b);
            assert(glue(out@, b) == glue(g1, glue(g2, glue(g3, b))));
        }
    }
    out
}

/// The encoded request parses back to the request it was given, and the
/// line holds no newline: every message round-trips through the wire
/// format.
impl crate::message::Request {
    /// Render the request as one line of the wire format.
    pub fn encode(&self) -> (line: String)
        ensures
            p_request(line@) == Some(self@),
            no_nl(line@),
    {
        let out: Vec<char> = match self {
            crate::message::Request::Ping => {
                let out = str_to_chars("ping");
                proof {
                    lemma_request_tags();
                    lemma_take_token("ping"@, Seq::<char>::empty());
                    assert(glue("ping"@, Seq::<char>::empty()) == out@);
                }
                out
            },
            crate::message::Request::Stop => {
                let out = str_to_chars("stop");
                proof {
                    lemma_request_tags();
                    lemma_take_token("stop"@, Seq::<char>::empty());
                    assert(glue("stop"@, Seq::<char>::empty()) == out@);
                }
                out
            },
            crate::message::Request::Clear => {
                let out = str_to_chars("clear");
                proof {
                    lemma_request_tags();
                    lemma_take_token("clear"@, Seq::<char>::empty());
                    assert(glue("clear"@, Seq::<char>::empty()) == out@);
                }
                out
            },
            crate::message::Request::Groups => {
                let out = str_to_chars("groups");
                proof {
                    lemma_request_tags();
                    lemma_take_token("groups"@, Seq::<char>::empty());
                    assert(glue("groups"@, Seq::<char>::empty()) == out@);
                }
                out
            },
            crate::message::Request::Copy { entry, primary, group, index } => {
                let c1 = emit_entry(entry);
                let c2 = emit_bool(*primary);
                let c3 = emit_opt_str(group);
                let c4 = emit_opt_usize(index);
                let ghost g1 = c1@;
                let ghost g2 = c2@;
                let ghost g3 = c3@;
                let ghost g4 = c4@;
                let tag = str_to_chars("copy");
                let out = prepend(tag, prepend(c1, prepend(c2, prepend(c3, c4))));
                proof {
                    lemma_request_tags();
                    assert(out@ =~= "copy"@ + seq![' '] + (g1 + seq![' '] + (g2 + seq![' '] + (g3
                        + seq![' '] + g4))));
                    lemma_glue_assoc(g3, g4, Seq::<char>::empty());
                    lemma_glue_assoc(g2, g3 + seq![' '] + g4, Seq::<char>::empty());
                    lemma_glue_assoc(g1, g2 + seq![' '] + (g3 + seq![' '] + g4), Seq::<char>::empty());
                    assert(out@ == glue("copy"@, glue(g1, glue(g2, glue(g3, g4)))));
                    lemma_take_token("copy"@, glue(g1, glue(g2, glue(g3, g4))));
                }
                out
            },
            crate::message::Request::Select { index, primary, group } => {
                let c1 = emit_usize(*index);
                let c2 = emit_bool(*primary);
                let c3 = emit_opt_str(group);
                let ghost g1 = c1@;
                let ghost g2 = c2@;
                let ghost g3 = c3@;
                let tag = str_to_chars("select");
                let out = prepend(tag, prepend(c1, prepend(c2, c3)));
                proof {
                    lemma_request_tags();
                    assert(out@ =~= "select"@ + seq![' '] + (g1 + seq![' '] + (g2 + seq![' ']
                        + g3)));
                    lemma_glue_assoc(g2, g3, Seq::<char>::empty());
                    lemma_glue_assoc(g1, g2 + seq![' '] + g3, Seq::<char>::empty());
                    assert(out@ == glue("select"@, glue(g1, glue(g2, g3))));
                    lemma_take_token("select"@, glue(g1, glue(g2, g3)));
                }
                out
            },
            crate::message::Request::List { length, group } => {
                let c1 = emit_usize(*length);
                let c2 = emit_opt_str(group);
                let ghost g1 = c1@;
                let ghost g2 = c2@;
                let tag = str_to_chars("list");
                let out = prepend(tag, prepend(c1, c2));
                proof {
                    lemma_request_tags();
                    assert(out@ =~= "list"@ + seq![' '] + (g1 + seq![' '] + g2));
                    lemma_glue_assoc(g1, g2, Seq::<char>::empty());
                    assert(out@ == glue("list"@, glue(g1, g2)));
                    lemma_take_token("list"@, glue(g1, g2));
                }
                out
            },
            crate::message::Request::Delete { index, group } => {
                let c1 = emit_usize(*index);
                let c2 = emit_opt_str(group);
                let ghost g1 = c1@;
                let ghost g2 = c2@;
                let tag = str_to_chars("delete");
                let out = prepend(tag, prepend(c1, c2));
                proof {
                    lemma_request_tags();
                    assert(out@ =~= "delete"@ + seq![' '] + (g1 + seq![' '] + g2));
                    lemma_glue_assoc(g1, g2, Seq::<char>::empty());
                    assert(out@ == glue("delete"@, glue(g1, g2)));
                    lemma_take_token("delete"@, glue(g1, g2));
                }
                out
            },
            crate::message::Request::Find { index, group } => {
                let c1 = emit_opt_usize(index);
                let c2 = emit_opt_str(group);
                let ghost g1 = c1@;
                let ghost g2 = c2@;
                let tag = str_to_chars("find");
                let out = prepend(tag, prepend(c1, c2));
                proof {
                    lemma_request_tags();
                    assert(out@ =~= "find"@ + seq![' '] + (g1 + seq![' '] + g2));
                    lemma_glue_assoc(g1, g2, Seq::<char>::empty());
                    assert(out@ == glue("find"@, glue(g1, g2)));
                    lemma_take_token("find"@, glue(g1, g2));
                }
                out
            },
            crate::message::Request::Wipe { wipe, group } => {
                let c1 = emit_wipe(wipe);
                let c2 = emit_opt_str(group);
                let ghost g1 = c1@;
                let ghost g2 = c2@;
                let tag = str_to_chars("wipe");
                let out = prepend(tag, prepend(c1, c2));
                proof {
                    lemma_request_tags();
                    assert(out@ =~= "wipe"@ + seq![' '] + (g1 + seq![' '] + g2));
                    lemma_glue_assoc(g1, g2, Seq::<char>::empty());
                    assert(out@ == glue("wipe"@, glue(g1, g2)));
                    lemma_take_token("wipe"@, glue(g1, g2));
                }
                out
            },
        };
        chars_to_string(&out)
    }
}

/// The request tags are pairwise distinct, space-free words.
pub proof fn lemma_request_tags()
    ensures
        forall|k: int| 0 <= k < "ping"@.len() ==> #[trigger] "ping"@[k] != ' ',
        forall|k: int| 0 <= k < "stop"@.len() ==> #[trigger] "stop"@[k] != ' ',
        forall|k: int| 0 <= k < "clear"@.len() ==> #[trigger] "clear"@[k] != ' ',
        forall|k: int| 0 <= k < "groups"@.len() ==> #[trigger] "groups"@[k] != ' ',
        forall|k: int| 0 <= k < "copy"@.len() ==> #[trigger] "copy"@[k] != ' ',
        forall|k: int| 0 <= k < "select"@.len() ==> #[trigger] "select"@[k] != ' ',
        forall|k: int| 0 <= k < "list"@.len() ==> #[trigger] "list"@[k] != ' ',
        forall|k: int| 0 <= k < "delete"@.len() ==> #[trigger] "delete"@[k] != ' ',
        forall|k: int| 0 <= k < "find"@.len() ==> #[trigger] "find"@[k] != ' ',
        forall|k: int| 0 <= k < "wipe"@.len() ==> #[trigger] "wipe"@[k] != ' ',
        forall|k: int| 0 <= k < "ping"@.len() ==> #[trigger] "ping"@[k] != '\n',
        forall|k: int| 0 <= k < "stop"@.len() ==> #[trigger] "stop"@[k] != '\n',
        forall|k: int| 0 <= k < "clear"@.len() ==> #[trigger] "clear"@[k] != '\n',
        forall|k: int| 0 <= k < "groups"@.len() ==> #[trigger] "groups"@[k] != '\n',
        forall|k: int| 0 <= k < "copy"@.len() ==> #[trigger] "copy"@[k] != '\n',
        forall|k: int| 0 <= k < "select"@.len() ==> #[trigger] "select"@[k] != '\n',
        forall|k: int| 0 <= k < "list"@.len() ==> #[trigger] "list"@[k] != '\n',
        forall|k: int| 0 <= k < "delete"@.len() ==> #[trigger] "delete"@[k] != '\n',
        forall|k: int| 0 <= k < "find"@.len() ==> #[trigger] "find"@[k] != '\n',
        forall|k: int| 0 <= k < "wipe"@.len() ==> #[trigger] "wipe"@[k] != '\n',
        "ping"@ != "stop"@ && "ping"@ != "clear"@ && "ping"@ != "groups"@ && "ping"@ != "copy"@
            && "ping"@ != "select"@ && "ping"@ != "list"@ && "ping"@ != "delete"@ && "ping"@
            != "find"@ && "ping"@ != "wipe"@,
        "stop"@ != "clear"@ && "stop"@ != "groups"@ && "stop"@ != "copy"@ && "stop"@ != "select"@
            && "stop"@ != "list"@ && "stop"@ != "delete"@ && "stop"@ != "find"@ && "stop"@
            != "wipe"@,
        "clear"@ != "groups"@ && "clear"@ != "copy"@ && "clear"@ != "select"@ && "clear"@
            != "list"@ && "clear"@ != "delete"@ && "clear"@ != "find"@ && "clear"@ != "wipe"@,
        "groups"@ != "copy"@ && "groups"@ != "select"@ && "groups"@ != "list"@ && "groups"@
            != "delete"@ && "groups"@ != "find"@ && "groups"@ != "wipe"@,
        "copy"@ != "select"@ && "copy"@ != "list"@ && "copy"@ != "delete"@ && "copy"@ != "find"@
            && "copy"@ != "wipe"@,
        "select"@ != "list"@ && "select"@ != "delete"@ && "select"@ != "find"@ && "select"@
            != "wipe"@,
        "list"@ != "delete"@ && "list"@ != "find"@ && "list"@ != "wipe"@,
        "delete"@ != "find"@ && "delete"@ != "wipe"@,
        "find"@ != "wipe"@,
{
    reveal_strlit("ping");
    reveal_strlit("stop");
    reveal_strlit("clear");
    reveal_strlit("groups");
    reveal_strlit("copy");
    reveal_strlit("select");
    reveal_strlit("list");
    reveal_strlit("delete");
    reveal_strlit("find");
    reveal_strlit("wipe");
    assert("ping"@.len() == 4 && "stop"@.len() == 4 && "clear"@.len() == 5 && "groups"@.len() == 6
        && "copy"@.len() == 4 && "select"@.len() == 6 && "list"@.len() == 4 && "delete"@.len() == 6
        && "find"@.len() == 4 && "wipe"@.len() == 4);
    assert("ping"@[0] == 'p');
    assert("stop"@[0] == 's');
    assert("clear"@[0] == 'c');
    assert("groups"@[0] == 'g');
    assert("copy"@[0] == 'c');
    assert("select"@[0] == 's');
    assert("list"@[0] == 'l');
    assert("delete"@[0] == 'd');
    assert("find"@[0] == 'f');
    assert("wipe"@[0] == 'w');
}

/// The response tags are pairwise distinct, space-free words.
pub proof fn lemma_response_tags()
    ensures
        forall|k: int| 0 <= k < "ok"@.len() ==> #[trigger] "ok"@[k] != ' ',
        forall|k: int| 0 <= k < "error"@.len() ==> #[trigger] "error"@[k] != ' ',
        forall|k: int| 0 <= k < "groups"@.len() ==> #[trigger] "groups"@[k] != ' ',
        forall|k: int| 0 <= k < "entry"@.len() ==> #[trigger] "entry"@[k] != ' ',
        forall|k: int| 0 <= k < "previews"@.len() ==> #[trigger] "previews"@[k] != ' ',
        forall|k: int| 0 <= k < "ok"@.len() ==> #[trigger] "ok"@[k] != '\n',
        forall|k: int| 0 <= k < "error"@.len() ==> #[trigger] "error"@[k] != '\n',
        forall|k: int| 0 <= k < "groups"@.len() ==> #[trigger] "groups"@[k] != '\n',
        forall|k: int| 0 <= k < "entry"@.len() ==> #[trigger] "entry"@[k] != '\n',
        forall|k: int| 0 <= k < "previews"@.len() ==> #[trigger] "previews"@[k] != '\n',
        "ok"@ != "error"@ && "ok"@ != "groups"@ && "ok"@ != "entry"@ && "ok"@ != "previews"@,
        "error"@ != "groups"@ && "error"@ != "entry"@ && "error"@ != "previews"@,
        "groups"@ != "entry"@ && "groups"@ != "previews"@,
        "entry"@ != "previews"@,
{
    reveal_strlit("ok");
    reveal_strlit("error");
    reveal_strlit("groups");
    reveal_strlit("entry");
    reveal_strlit("previews");
    assert("ok"@.len() == 2 && "error"@.len() == 5 && "groups"@.len() == 6 && "entry"@.len() == 5
        && "previews"@.len() == 8);
    assert("ok"@[0] == 'o');
    assert("error"@[0] == 'e');
    assert("error"@[1] == 'r');
    assert("entry"@[1] == 'n');
    assert("groups"@[0] == 'g');
    assert("entry"@[0] == 'e');
    assert("previews"@[0] == 'p');
}

/// Render the name list of a groups response: the count, then the names.
#[verifier::rlimit(30)]
fn emit_names(names: &Vec<String>) -> (out: Vec<char>)
    ensures
        out@.len() > 0,
        no_nl(out@),
        forall|b: Seq<char>|
            #![trigger p_usize(glue(out@, b))]
            {
                match p_usize(glue(out@, b)) {
                    Some((n, r)) => p_strs(r, n) == Some((names.deep_view(), b)),
                    None => false,
                }
            },
{
    let n = names.len();
    let cnt = emit_usize(n);
    if n == 0 {
        proof {
            assert forall|b: Seq<char>| #[trigger]
                p_usize(glue(cnt@, b)) == Some((0nat, b)) by {}
            assert(names.deep_view() =~= Seq::<Seq<char>>::empty());
        }
        return cnt;
    }
    let mut i: usize = n - 1;
    let mut tail = emit_str(names[i].as_str());
    proof {
        assert forall|b: Seq<char>| #[trigger]
            p_strs(glue(tail@, b), (n - i) as nat) == Some(
                (names.deep_view().skip(i as int), b),
            ) by {
            assert(p_str(glue(tail@, b)) == Some((names@[i as int]@, b)));
            assert(p_strs(b, ((n - i) - 1) as nat) == Some((Seq::<Seq<char>>::empty(), b)));
            assert(seq![names@[i as int]@] + Seq::<Seq<char>>::empty() =~= names.deep_view().skip(
                i as int,
            ));
        }
    }
    while i > 0
        invariant
            i < n,
            n == names.len(),
            tail@.len() > 0,
            no_nl(tail@),
            forall|b: Seq<char>| #[trigger]
                p_strs(glue(tail@, b), (n - i) as nat) == Some(
                    (names.deep_view().skip(i as int), b),
                ),
        decreases i,
    {
        let j = i - 1;
        let mut chunk = emit_str(names[j].as_str());
        let ghost ck = chunk@;
        let ghost prev = tail@;
        let ghost m0: nat = (n - i) as nat;
        chunk.push(' ');
        chunk.append(&mut tail);
        tail = chunk;
        proof {
            assert(tail@ =~= ck + seq![' '] + prev);
            assert forall|b: Seq<char>| #[trigger]
                p_strs(glue(tail@, b), (n - j) as nat) == Some(
                    (names.deep_view().skip(j as int), b),
                ) by {
                lemma_glue_assoc(ck, prev, b);
                assert(glue(tail@, b) == glue(ck, glue(prev, b)));
                assert(p_str(glue(ck, glue(prev, b))) == Some((names@[j as int]@, glue(prev, b))));
                assert(p_strs(glue(prev, b), m0) == Some(
                    (names.deep_view().skip(i as int), b),
                ));
                let m1: nat = (n - j) as nat;
                assert(m1 != 0);
                assert((m1 - 1) as nat == m0);
                assert(seq![names@[j as int]@] + names.deep_view().skip(i as int)
                    =~= names.deep_view().skip(j as int));
            }
        }
        i = j;
    }
    let ghost cn = cnt@;
    let ghost tl = tail@;
    let out = prepend(cnt, tail);
    proof {
        assert(out@ =~= cn + seq![' '] + tl);
        assert forall|b: Seq<char>|
            #![trigger p_usize(glue(out@, b))]
            {
                match p_usize(glue(out@, b)) {
                    Some((m, r)) => p_strs(r, m) == Some((names.deep_view(), b)),
                    None => false,
                }
            } by {
            lemma_glue_assoc(cn, tl, b);
            assert(glue(out@, b) == glue(cn, glue(tl, b)));
            assert(p_usize(glue(cn, glue(tl, b))) == Some((n as nat, glue(tl, b))));
            assert(p_strs(glue(tl, b), (n - 0) as nat) == Some((names.deep_view().skip(0), b)));
            assert((n - 0) as nat == n as nat);
            assert(names.deep_view().skip(0) =~= names.deep_view());
        }
    }
    out
}

/// Render the row list of a previews response: the count, then the rows.
#[verifier::rlimit(30)]
fn emit_previews(rows: &Vec<crate::clip::Preview>) -> (out: Vec<char>)
    ensures
        out@.len() > 0,
        no_nl(out@),
        forall|b: Seq<char>|
            #![trigger p_usize(glue(out@, b))]
            {
                match p_usize(glue(out@, b)) {
                    Some((n, r)) => p_previews(r, n) == Some(
                        (rows@.map_values(|p: crate::clip::Preview| p@), b),
                    ),
                    None => false,
                }
            },
{
    let ghost rv = rows@.map_values(|p: crate::clip::Preview| p@);
    let n = rows.len();
    let cnt = emit_usize(n);
    if n == 0 {
        proof {
            assert forall|b: Seq<char>| #[trigger]
                p_usize(glue(cnt@, b)) == Some((0nat, b)) by {}
            assert(rv =~= Seq::<crate::clip::PreviewV>::empty());
        }
        return cnt;
    }
    let mut i: usize = n - 1;
    let mut tail = emit_preview(&rows[i]);
    proof {
        assert forall|b: Seq<char>| #[trigger]
            p_previews(glue(tail@, b), (n - i) as nat) == Some((rv.skip(i as int), b)) by {
            assert(p_preview(glue(tail@, b)) == Some((rv[i as int], b)));
            assert(p_previews(b, ((n - i) - 1) as nat) == Some(
                (Seq::<crate::clip::PreviewV>::empty(), b),
            ));
            assert(seq![rv[i as int]] + Seq::<crate::clip::PreviewV>::empty() =~= rv.skip(
                i as int,
            ));
        }
    }
    while i > 0
        invariant
            i < n,
            n == rows.len(),
            rv == rows@.map_values(|p: crate::clip::Preview| p@),
            tail@.len() > 0,
            no_nl(tail@),
            forall|b: Seq<char>| #[trigger]
                p_previews(glue(tail@, b), (n - i) as nat) == Some((rv.skip(i as int), b)),
        decreases i,
    {
        let j = i - 1;
        let mut chunk = emit_preview(&rows[j]);
        let ghost ck = chunk@;
        let ghost prev = tail@;
        let ghost m0: nat = (n - i) as nat;
        chunk.push(' ');
        chunk.append(&mut tail);
        tail = chunk;
        proof {
            assert(tail@ =~= ck + seq![' '] + prev);
            assert forall|b: Seq<char>| #[trigger]
                p_previews(glue(tail@, b), (n - j) as nat) == Some((rv.skip(j as int), b)) by {
                lemma_glue_assoc(ck, prev, b);
                assert(glue(tail@, b) == glue(ck, glue(prev, b)));
                assert(p_preview(glue(ck, glue(prev, b))) == Some((rv[j as int], glue(prev, b))));
                assert(p_previews(glue(prev, b), m0) == Some((rv.skip(i as int), b)));
                let m1: nat = (n - j) as nat;
                assert(m1 != 0);
                assert((m1 - 1) as nat == m0);
                assert(seq![rv[j as int]] + rv.skip(i as int) =~= rv.skip(j as int));
            }
        }
        i = j;
    }
    let ghost cn = cnt@;
    let ghost tl = tail@;
    let out = prepend(cnt, tail);
    proof {
        assert(out@ =~= cn + seq![' '] + tl);
        assert forall|b: Seq<char>|
            #![trigger p_usize(glue(out@, b))]
            {
                match p_usize(glue(out@, b)) {
                    Some((m, r)) => p_previews(r, m) == Some((rv, b)),
                    None => false,
                }
            } by {
            lemma_glue_assoc(cn, tl, b);
            assert(glue(out@, b) == glue(cn, glue(tl, b)));
            assert(p_usize(glue(cn, glue(tl, b))) == Some((n as nat, glue(tl, b))));
            assert(p_previews(glue(tl, b), (n - 0) as nat) == Some((rv.skip(0), b)));
            assert((n - 0) as nat == n as nat);
            assert(rv.skip(0) =~= rv);
        }
    }
    out
}

impl crate::message::Response {
    /// Render the response as one line of the wire format.
    pub fn encode(&self) -> (line: String)
        ensures
            p_response(line@) == Some(self@),
            no_nl(line@),
    {
        let out: Vec<char> = match self {
            crate::message::Response::Okay => {
                let out = str_to_chars("ok");
                proof {
                    lemma_response_tags();
                    lemma_take_token("ok"@, Seq::<char>::empty());
                    assert(glue("ok"@, Seq::<char>::empty()) == out@);
                    assert(p_response(out@) == Some(self@));
                }
                out
            },
            crate::message::Response::Error { error } => {
                let c1 = emit_str(error.as_str());
                let ghost g1 = c1@;
                let tag = str_to_chars("error");
                let out = prepend(tag, c1);
                proof {
                    lemma_response_tags();
                    assert(out@ =~= "error"@ + seq![' '] + g1);
                    assert(out@ == glue("error"@, g1));
                    lemma_take_token("error"@, g1);
                    assert(glue(g1, Seq::<char>::empty()) == g1);
                    assert(p_response(out@) == Some(self@));
                }
                out
            },
            crate::message::Response::Groups { groups } => {
                let c1 = emit_names(groups);
                let ghost g1 = c1@;
                let tag = str_to_chars("groups");
                let out = prepend(tag, c1);
                proof {
                    lemma_response_tags();
                    assert(out@ =~= "groups"@ + seq![' '] + g1);
                    assert(out@ == glue("groups"@, g1));
                    lemma_take_token("groups"@, g1);
                    assert(glue(g1, Seq::<char>::empty()) == g1);
                    assert(p_response(out@) == Some(self@));
                }
                out
            },
            crate::message::Response::Entry { entry, index } => {
                let c1 = emit_entry(entry);
                let c2 = emit_usize(*index);
                let ghost g1 = c1@;
                let ghost g2 = c2@;
                let tag = str_to_chars("entry");
                let out = prepend(tag, prepend(c1, c2));
                proof {
                    lemma_response_tags();
                    assert(out@ =~= "entry"@ + seq![' '] + (g1 + seq![' '] + g2));
                    lemma_glue_assoc(g1, g2, Seq::<char>::empty());
                    assert(out@ == glue("entry"@, glue(g1, g2)));
                    lemma_take_token("entry"@, glue(g1, g2));
                    assert(p_response(out@) == Some(self@));
                }
                out
            },
            crate::message::Response::Previews { previews } => {
                let c1 = emit_previews(previews);
                let ghost g1 = c1@;
                let tag = str_to_chars("previews");
                let out = prepend(tag, c1);
                proof {
                    lemma_response_tags();
                    assert(out@ =~= "previews"@ + seq![' '] + g1);
                    assert(out@ == glue("previews"@, g1));
                    lemma_take_token("previews"@, g1);
                    assert(glue(g1, Seq::<char>::empty()) == g1);
                    assert(p_response(out@) == Some(self@));
                }
                out
            },
        };
        chars_to_string(&out)
    }
}

/// The first separator of a stream whose head is known: the first space.
pub proof fn lemma_first_sep_is(s: Seq<char>, i: int)
    requires
        0 <= i <= s.len(),
        forall|k: int| 0 <= k < i ==> s[k] != ' ',
        i < s.len() ==> s[i] == ' ',
    ensures
        first_sep(s) == i,
    decreases s.len(),
{
    if s.len() > 0 && s[0] != ' ' {
        let t = s.subrange(1, s.len() as int);
        assert forall|k: int| 0 <= k < i - 1 implies t[k] != ' ' by {
            assert(t[k] == s[k + 1]);
        }
        lemma_first_sep_is(t, i - 1);
    }
}

/// Find the end of the field that starts at `i`.
fn find_sep(v: &Vec<char>, i: usize) -> (e: usize)
    requires
        i <= v.len(),
    ensures
        i <= e <= v.len(),
        e - i == first_sep(v@.skip(i as int)),
        forall|k: int| i <= k < e ==> v@[k] != ' ',
        e < v.len() ==> v@[e as int] == ' ',
{
    let mut e: usize = i;
    while e < v.len() && v[e] != ' '
        invariant
            i <= e <= v.len(),
            forall|k: int| i <= k < e ==> v@[k] != ' ',
        decreases v.len() - e,
    {
        e = e + 1;
    }
    proof {
        let u = v@.skip(i as int);
        assert forall|k: int| 0 <= k < e - i implies u[k] != ' ' by {
            assert(u[k] == v@[i + k]);
        }
        if e < v.len() {
            assert(u[e - i] == v@[e as int]);
        }
        lemma_first_sep_is(u, e - i);
    }
    e
}

/// Take the field that starts at `i`: its end, and where the next field
/// starts.
fn take_tok(v: &Vec<char>, i: usize) -> (r: (usize, usize))
    requires
        i <= v.len(),
    ensures
        i <= r.0 <= r.1 <= v.len(),
        token_of(v@.skip(i as int)) == v@.subrange(i as int, r.0 as int),
        rest_after(v@.skip(i as int)) == v@.skip(r.1 as int),
        r.0 < v.len() ==> r.1 == r.0 + 1,
        r.0 == v.len() ==> r.1 == r.0,
{
    let e = find_sep(v, i);
    let n = if e < v.len() {
        e + 1
    } else {
        e
    };
    proof {
        let u = v@.skip(i as int);
        assert(token_of(u) =~= v@.subrange(i as int, e as int));
        if (e - i) < u.len() {
            assert(rest_after(u) =~= v@.skip(n as int));
        } else {
            assert(rest_after(u) =~= v@.skip(n as int));
        }
    }
    (e, n)
}

/// Compare a stretch of characters with a literal.
fn tok_eq_lit(v: &Vec<char>, s: usize, e: usize, lit: &str) -> (r: bool)
    requires
        s <= e <= v.len(),
    ensures
        r == (v@.subrange(s as int, e as int) == lit@),
{
    let n = lit.unicode_len();
    if e - s != n {
        proof {
            assert(v@.subrange(s as int, e as int).len() != lit@.len());
        }
        return false;
    }
    let mut k: usize = 0;
    while k < n
        invariant
            k <= n,
            n == lit@.len(),
            s <= e <= v.len(),
            e - s == n,
            forall|j: int| 0 <= j < k ==> v@[s + j] == lit@[j],
        decreases n - k,
    {
        if v[s + k] != lit.get_char(k) {
            proof {
                assert(v@.subrange(s as int, e as int)[k as int] == v@[s + k]);
            }
            return false;
        }
        k = k + 1;
    }
    proof {
        assert(v@.subrange(s as int, e as int) =~= lit@);
    }
    true
}

/// Parse the decimal field at `i` as an index-sized number.
pub(crate) fn px_usize(v: &Vec<char>, i: usize) -> (r: Option<(usize, usize)>)
    requires
        i <= v.len(),
    ensures
        match r {
            Some((val, ni)) => ni <= v.len() && p_usize(v@.skip(i as int)) == Some(
                (val as nat, v@.skip(ni as int)),
            ),
            None => p_usize(v@.skip(i as int)) is None,
        },
{
    let (e, n) = take_tok(v, i);
    let ghost u = v@.skip(i as int);
    let ghost t = v@.subrange(i as int, e as int);
    if e == i {
        proof {
            assert(t.len() == 0);
        }
        return None;
    }
    let mut val: usize = 0;
    let mut j: usize = i;
    while j < e
        invariant
            i <= j <= e <= v.len(),
            t == v@.subrange(i as int, e as int),
            token_of(v@.skip(i as int)) == t,
            e > i,
            all_digits(v@.subrange(i as int, j as int)),
            val as nat == dec_val(v@.subrange(i as int, j as int)),
            val <= usize::MAX,
        decreases e - j,
    {
        let c = v[j];
        let cu = c as u32;
        if cu < 48 || cu > 57 {
            proof {
                assert(t[j - i] == v@[j as int]);
                assert(!is_digit(t[j - i]));
            }
            return None;
        }
        let d: usize = (cu - 48) as usize;
        proof {
            assert(v@.subrange(i as int, j as int + 1).drop_last() =~= v@.subrange(
                i as int,
                j as int,
            ));
            assert(v@.subrange(i as int, j as int + 1).last() == v@[j as int]);
        }
        if val > usize::MAX / 10 || (val == usize::MAX / 10 && d > usize::MAX % 10) {
            proof {
                let pre = v@.subrange(i as int, j as int + 1);
                assert(dec_val(pre) == val as nat * 10 + d as nat);
                assert(val as nat * 10 + d as nat > usize::MAX as nat) by (nonlinear_arith)
                    requires
                        val > usize::MAX / 10 || (val == usize::MAX / 10 && d > usize::MAX % 10),
                        usize::MAX == usize::MAX / 10 * 10 + usize::MAX % 10,
                {
                }
                assert(t.subrange(0, j - i + 1) =~= pre);
                lemma_dec_val_prefix(t, j - i + 1);
            }
            return None;
        }
        proof {
            assert(val as nat * 10 + d as nat <= usize::MAX as nat) by (nonlinear_arith)
                requires
                    val <= usize::MAX / 10,
                    d < 10,
                    !(val == usize::MAX / 10 && d > usize::MAX % 10),
                    usize::MAX == usize::MAX / 10 * 10 + usize::MAX % 10,
            {
            }
        }
        val = val * 10 + d;
        j = j + 1;
    }
    proof {
        assert(v@.subrange(i as int, j as int) =~= t);
    }
    Some((val, n))
}

/// Parse the decimal field at `i` as a timestamp-sized number.
pub(crate) fn px_u64(v: &Vec<char>, i: usize) -> (r: Option<(u64, usize)>)
    requires
        i <= v.len(),
    ensures
        match r {
            Some((val, ni)) => ni <= v.len() && p_u64(v@.skip(i as int)) == Some(
                (val as nat, v@.skip(ni as int)),
            ),
            None => p_u64(v@.skip(i as int)) is None,
        },
{
    let (e, n) = take_tok(v, i);
    let ghost u = v@.skip(i as int);
    let ghost t = v@.subrange(i as int, e as int);
    if e == i {
        proof {
            assert(t.len() == 0);
        }
        return None;
    }
    let mut val: u64 = 0;
    let mut j: usize = i;
    while j < e
        invariant
            i <= j <= e <= v.len(),
            t == v@.subrange(i as int, e as int),
            token_of(v@.skip(i as int)) == t,
            e > i,
            all_digits(v@.subrange(i as int, j as int)),
            val as nat == dec_val(v@.subrange(i as int, j as int)),
            val <= u64::MAX,
        decreases e - j,
    {
        let c = v[j];
        let cu = c as u32;
        if cu < 48 || cu > 57 {
            proof {
                assert(t[j - i] == v@[j as int]);
                assert(!is_digit(t[j - i]));
            }
            return None;
        }
        let d: u64 = (cu - 48) as u64;
        proof {
            assert(v@.subrange(i as int, j as int + 1).drop_last() =~= v@.subrange(
                i as int,
                j as int,
            ));
            assert(v@.subrange(i as int, j as int + 1).last() == v@[j as int]);
        }
        if val > u64::MAX / 10 || (val == u64::MAX / 10 && d > u64::MAX % 10) {
            proof {
                let pre = v@.subrange(i as int, j as int + 1);
                assert(dec_val(pre) == val as nat * 10 + d as nat);
                assert(val as nat * 10 + d as nat > u64::MAX as nat) by (nonlinear_arith)
                    requires
                        val > u64::MAX / 10 || (val == u64::MAX / 10 && d > u64::MAX % 10),
                        u64::MAX == u64::MAX / 10 * 10 + u64::MAX % 10,
                {
                }
                assert(t.subrange(0, j - i + 1) =~= pre);
                lemma_dec_val_prefix(t, j - i + 1);
            }
            return None;
        }
        proof {
            assert(val as nat * 10 + d as nat <= u64::MAX as nat) by (nonlinear_arith)
                requires
                    val <= u64::MAX / 10,
                    d < 10,
                    !(val == u64::MAX / 10 && d > u64::MAX % 10),
                    u64::MAX == u64::MAX / 10 * 10 + u64::MAX % 10,
            {
            }
        }
        val = val * 10 + d;
        j = j + 1;
    }
    proof {
        assert(v@.subrange(i as int, j as int) =~= t);
    }
    Some((val, n))
}

/// Decide whether a character is a decimal digit.
fn is_digit_exec(c: char) -> (r: bool)
    ensures
        r == is_digit(c),
{
    let cu = c as u32;
    48 <= cu && cu <= 57
}

/// Copy a stretch of characters.
fn copy_range(v: &Vec<char>, s: usize, e: usize) -> (r: Vec<char>)
    requires
        s <= e <= v.len(),
    ensures
        r@ == v@.subrange(s as int, e as int),
{
    let mut out: Vec<char> = Vec::new();
    let mut k: usize = s;
    while k < e
        invariant
            s <= k <= e <= v.len(),
            out@ == v@.subrange(s as int, k as int),
        decreases e - k,
    {
        out.push(v[k]);
        k = k + 1;
        proof {
            assert(out@ =~= v@.subrange(s as int, k as int));
        }
    }
    out
}

/// Parse the string field at `i`.
#[verifier::rlimit(40)]
fn px_str(v: &Vec<char>, i: usize) -> (r: Option<(String, usize)>)
    requires
        i <= v.len(),
    ensures
        match r {
            Some((s, ni)) => ni <= v.len() && p_str(v@.skip(i as int)) == Some(
                (s@, v@.skip(ni as int)),
            ),
            None => p_str(v@.skip(i as int)) is None,
        },
{
    let ghost u = v@.skip(i as int);
    // The digit run that carries the escaped length.
    let mut j: usize = i;
    while j < v.len() && is_digit_exec(v[j])
        invariant
            i <= j <= v.len(),
            forall|k: int| i <= k < j ==> is_digit(#[trigger] v@[k]),
        decreases v.len() - j,
    {
        j = j + 1;
    }
    proof {
        assert forall|k: int| 0 <= k < j - i implies is_digit(#[trigger] u[k]) by {
            assert(u[k] == v@[i + k]);
        }
        if (j - i) < u.len() {
            assert(u[j - i] == v@[j as int]);
        }
        lemma_digit_run_is(u, j - i);
    }
    if j == i {
        return None;
    }
    if j == v.len() {
        return None;
    }
    if v[j] != ':' {
        proof {
            assert(u[j - i] == v@[j as int]);
        }
        return None;
    }
    // The escaped length itself.
    let ghost t = v@.subrange(i as int, j as int);
    proof {
        assert(u.subrange(0, j - i) =~= t);
    }
    let mut n: usize = 0;
    let mut k: usize = i;
    while k < j
        invariant
            i <= k <= j < v.len(),
            u == v@.skip(i as int),
            t == v@.subrange(i as int, j as int),
            digit_run(u) == j - i,
            u.subrange(0, j - i) == t,
            u[j - i] == ':',
            forall|q: int| i <= q < j ==> is_digit(#[trigger] v@[q]),
            n as nat == dec_val(v@.subrange(i as int, k as int)),
            n <= usize::MAX,
        decreases j - k,
    {
        let c = v[k];
        let d: usize = ((c as u32) - 48) as usize;
        proof {
            assert(is_digit(v@[k as int]));
            assert(v@.subrange(i as int, k as int + 1).drop_last() =~= v@.subrange(
                i as int,
                k as int,
            ));
            assert(v@.subrange(i as int, k as int + 1).last() == v@[k as int]);
        }
        if n > usize::MAX / 10 || (n == usize::MAX / 10 && d > usize::MAX % 10) {
            proof {
                let pre = v@.subrange(i as int, k as int + 1);
                assert(dec_val(pre) == n as nat * 10 + d as nat);
                assert(n as nat * 10 + d as nat > usize::MAX as nat) by (nonlinear_arith)
                    requires
                        n > usize::MAX / 10 || (n == usize::MAX / 10 && d > usize::MAX % 10),
                        usize::MAX == usize::MAX / 10 * 10 + usize::MAX % 10,
                        d < 10,
                {
                }
                assert(t.subrange(0, k - i + 1) =~= pre);
                lemma_dec_val_prefix(t, k - i + 1);
            }
            return None;
        }
        proof {
            assert(n as nat * 10 + d as nat <= usize::MAX as nat) by (nonlinear_arith)
                requires
                    n <= usize::MAX / 10,
                    d < 10,
                    !(n == usize::MAX / 10 && d > usize::MAX % 10),
                    usize::MAX == usize::MAX / 10 * 10 + usize::MAX % 10,
            {
            }
        }
        n = n * 10 + d;
        k = k + 1;
    }
    proof {
        assert(v@.subrange(i as int, k as int) =~= t);
    }
    // The escaped payload.
    let start = j + 1;
    if n > v.len() - start {
        return None;
    }
    let ghost esc = v@.subrange(start as int, start as int + n as int);
    proof {
        assert(u.subrange(j - i + 1, j - i + 1 + n as int) =~= esc);
    }
    let mut out: Vec<char> = Vec::new();
    proof {
        assert(esc.skip(0) =~= esc);
        match spec_unescape(esc) {
            Some(tl) => {
                assert(out@ + tl =~= tl);
            },
            None => {},
        }
    }
    let mut q: usize = 0;
    while q < n
        invariant
            q <= n,
            start + n <= v.len(),
            start == j + 1,
            i <= j < v.len(),
            u == v@.skip(i as int),
            t == v@.subrange(i as int, j as int),
            digit_run(u) == j - i,
            u.subrange(0, j - i) == t,
            u[j - i] == ':',
            j > i,
            dec_val(t) == n as nat,
            esc == v@.subrange(start as int, start as int + n as int),
            esc == u.subrange(j - i + 1, j - i + 1 + n as int),
            match spec_unescape(esc.skip(q as int)) {
                Some(tl) => spec_unescape(esc) == Some(out@ + tl),
                None => spec_unescape(esc) is None,
            },
        decreases n - q,
    {
        let ghost rem = esc.skip(q as int);
        proof {
            assert(rem[0] == v@[start + q]);
            if q + 1 < n {
                assert(rem[1] == v@[start + q + 1]);
            }
        }
        let c = v[start + q];
        if c == '\\' {
            if q + 1 >= n {
                proof {
                    assert(rem.len() == 1);
                }
                return None;
            }
            let c2 = v[start + q + 1];
            if c2 == '\\' {
                out.push('\\');
                proof {
                    assert(rem.subrange(2, rem.len() as int) =~= esc.skip(q as int + 2));
                    assert(out@ + seq!['\\'].add(spec_unescape(esc.skip(q as int + 2)).unwrap_or(
                        Seq::empty(),
                    )) == out@ + seq!['\\'] + spec_unescape(esc.skip(q as int + 2)).unwrap_or(
                        Seq::empty(),
                    )) by {
                    }
                    match spec_unescape(esc.skip(q as int + 2)) {
                        Some(tl2) => {
                            assert(spec_unescape(rem) == Some(seq!['\\'] + tl2));
                            assert(out@.drop_last() + (seq!['\\'] + tl2) =~= out@ + tl2);
                        },
                        None => {},
                    }
                }
                q = q + 2;
            } else if c2 == 'n' {
                out.push('\n');
                proof {
                    assert(rem.subrange(2, rem.len() as int) =~= esc.skip(q as int + 2));
                    match spec_unescape(esc.skip(q as int + 2)) {
                        Some(tl2) => {
                            assert(spec_unescape(rem) == Some(seq!['\n'] + tl2));
                            assert(out@.drop_last() + (seq!['\n'] + tl2) =~= out@ + tl2);
                        },
                        None => {},
                    }
                }
                q = q + 2;
            } else {
                return None;
            }
        } else if c == '\n' {
            return None;
        } else {
            out.push(c);
            proof {
                assert(rem.subrange(1, rem.len() as int) =~= esc.skip(q as int + 1));
                match spec_unescape(esc.skip(q as int + 1)) {
                    Some(tl2) => {
                        assert(spec_unescape(rem) == Some(seq![c] + tl2));
                        assert(out@.drop_last() + (seq![c] + tl2) =~= out@ + tl2);
                    },
                    None => {},
                }
            }
            q = q + 1;
        }
    }
    proof {
        assert(esc.skip(n as int) =~= Seq::<char>::empty());
        assert(spec_unescape(esc) == Some(out@ + Seq::<char>::empty()));
        assert(out@ + Seq::<char>::empty() =~= out@);
    }
    // The separator or the end of the stream.
    let p = start + n;
    let ghost rest0 = u.subrange(j - i + 1 + n as int, u.len() as int);
    proof {
        assert(rest0 =~= v@.skip(p as int));
    }
    if p == v.len() {
        let s = chars_to_string(&out);
        proof {
            assert(rest0.len() == 0);
        }
        return Some((s, p));
    }
    if v[p] == ' ' {
        let s = chars_to_string(&out);
        proof {
            assert(rest0[0] == v@[p as int]);
            assert(rest0.subrange(1, rest0.len() as int) =~= v@.skip(p as int + 1));
        }
        return Some((s, p + 1));
    }
    proof {
        assert(rest0[0] == v@[p as int]);
    }
    None
}

/// Parse the boolean field at `i`.
fn px_bool(v: &Vec<char>, i: usize) -> (r: Option<(bool, usize)>)
    requires
        i <= v.len(),
    ensures
        match r {
            Some((val, ni)) => ni <= v.len() && p_bool(v@.skip(i as int)) == Some(
                (val, v@.skip(ni as int)),
            ),
            None => p_bool(v@.skip(i as int)) is None,
        },
{
    let (e, n) = take_tok(v, i);
    if tok_eq_lit(v, i, e, "true") {
        Some((true, n))
    } else if tok_eq_lit(v, i, e, "false") {
        Some((false, n))
    } else {
        None
    }
}

/// Parse the binary body field at `i`.
fn px_bytes(v: &Vec<char>, i: usize) -> (r: Option<(Vec<u8>, usize)>)
    requires
        i <= v.len(),
    ensures
        match r {
            Some((bytes, ni)) => ni <= v.len() && p_bytes(v@.skip(i as int)) == Some(
                (bytes@, v@.skip(ni as int)),
            ),
            None => p_bytes(v@.skip(i as int)) is None,
        },
{
    let (e, n) = take_tok(v, i);
    if tok_eq_lit(v, i, e, "-") {
        let out: Vec<u8> = Vec::new();
        proof {
            assert(out@ =~= Seq::<u8>::empty());
        }
        return Some((out, n));
    }
    if e == i {
        proof {
            assert(token_of(v@.skip(i as int)).len() == 0);
        }
        return None;
    }
    let tokv = copy_range(v, i, e);
    let toks = chars_to_string(&tokv);
    match b64_decode(toks.as_str()) {
        Some(bytes) => Some((bytes, n)),
        None => None,
    }
}

/// Parse the optional index field at `i`.
fn px_opt_usize(v: &Vec<char>, i: usize) -> (r: Option<(Option<usize>, usize)>)
    requires
        i <= v.len(),
    ensures
        match r {
            Some((val, ni)) => ni <= v.len() && p_opt_usize(v@.skip(i as int)) == Some(
                (crate::message::idx_view(&val), v@.skip(ni as int)),
            ),
            None => p_opt_usize(v@.skip(i as int)) is None,
        },
{
    let (e, n) = take_tok(v, i);
    if tok_eq_lit(v, i, e, "none") {
        return Some((None, n));
    }
    if tok_eq_lit(v, i, e, "some") {
        match px_usize(v, n) {
            Some((val, ni)) => {
                return Some((Some(val), ni));
            },
            None => {
                return None;
            },
        }
    }
    None
}

/// Parse the optional group field at `i`.
fn px_opt_str(v: &Vec<char>, i: usize) -> (r: Option<(Option<String>, usize)>)
    requires
        i <= v.len(),
    ensures
        match r {
            Some((val, ni)) => ni <= v.len() && p_opt_str(v@.skip(i as int)) == Some(
                (crate::message::grp_view(&val), v@.skip(ni as int)),
            ),
            None => p_opt_str(v@.skip(i as int)) is None,
        },
{
    let (e, n) = take_tok(v, i);
    if tok_eq_lit(v, i, e, "none") {
        return Some((None, n));
    }
    if tok_eq_lit(v, i, e, "some") {
        match px_str(v, n) {
            Some((val, ni)) => {
                return Some((Some(val), ni));
            },
            None => {
                return None;
            },
        }
    }
    None
}

/// Parse the wipe argument at `i`.
fn px_wipe(v: &Vec<char>, i: usize) -> (r: Option<(crate::message::Wipe, usize)>)
    requires
        i <= v.len(),
    ensures
        match r {
            Some((val, ni)) => ni <= v.len() && p_wipe(v@.skip(i as int)) == Some(
                (val@, v@.skip(ni as int)),
            ),
            None => p_wipe(v@.skip(i as int)) is None,
        },
{
    let (e, n) = take_tok(v, i);
    if tok_eq_lit(v, i, e, "all") {
        return Some((crate::message::Wipe::All, n));
    }
    if tok_eq_lit(v, i, e, "single") {
        match px_usize(v, n) {
            Some((val, ni)) => {
                return Some((crate::message::Wipe::Single { index: val }, ni));
            },
            None => {
                return None;
            },
        }
    }
    None
}

/// Parse the body at `i`.
fn px_body(v: &Vec<char>, i: usize) -> (r: Option<(crate::clip::ClipBody, usize)>)
    requires
        i <= v.len(),
    ensures
        match r {
            Some((val, ni)) => ni <= v.len() && p_body(v@.skip(i as int)) == Some(
                (val@, v@.skip(ni as int)),
            ),
            None => p_body(v@.skip(i as int)) is None,
        },
{
    let (e, n) = take_tok(v, i);
    if tok_eq_lit(v, i, e, "text") {
        match px_str(v, n) {
            Some((s, ni)) => {
                return Some((crate::clip::ClipBody::Text(s), ni));
            },
            None => {
                return None;
            },
        }
    }
    if tok_eq_lit(v, i, e, "data") {
        match px_bytes(v, n) {
            Some((bytes, ni)) => {
                return Some((crate::clip::ClipBody::Data(bytes), ni));
            },
            None => {
                return None;
            },
        }
    }
    None
}

/// Parse `n` string fields starting at `i`.
fn px_strs(v: &Vec<char>, i: usize, n: usize) -> (r: Option<(Vec<String>, usize)>)
    requires
        i <= v.len(),
    ensures
        match r {
            Some((vals, ni)) => ni <= v.len() && p_strs(v@.skip(i as int), n as nat) == Some(
                (vals.deep_view(), v@.skip(ni as int)),
            ),
            None => p_strs(v@.skip(i as int), n as nat) is None,
        },
{
    let mut acc: Vec<String> = Vec::new();
    let mut cur: usize = i;
    let mut k: usize = 0;
    proof {
        assert(acc.deep_view() =~= Seq::<Seq<char>>::empty());
    }
    while k < n
        invariant
            cur <= v.len(),
            k <= n,
            acc.len() == k,
            ({
                let tail = p_strs(v@.skip(cur as int), (n - k) as nat);
                match tail {
                    Some((xs, r2)) => p_strs(v@.skip(i as int), n as nat) == Some(
                        (acc.deep_view() + xs, r2),
                    ),
                    None => p_strs(v@.skip(i as int), n as nat) is None,
                }
            }),
        decreases n - k,
    {
        let ghost pre = acc.deep_view();
        let ghost m: nat = (n - k) as nat;
        match px_str(v, cur) {
            Some((s, ni)) => {
                acc.push(s);
                proof {
                    assert(acc.deep_view() =~= pre.push(s@));
                    let nk: nat = (n - (k + 1)) as nat;
                    assert((m - 1) as nat == nk);
                    match p_strs(v@.skip(ni as int), nk) {
                        Some((xs2, r3)) => {
                            assert(p_strs(v@.skip(cur as int), m) == Some((seq![s@] + xs2, r3)));
                            assert(pre + (seq![s@] + xs2) =~= acc.deep_view() + xs2);
                        },
                        None => {
                            assert(p_strs(v@.skip(cur as int), m) is None);
                        },
                    }
                }
                cur = ni;
            },
            None => {
                proof {
                    assert(p_strs(v@.skip(cur as int), m) is None);
                }
                return None;
            },
        }
        k = k + 1;
    }
    proof {
        assert(p_strs(v@.skip(cur as int), 0) == Some(
            (Seq::<Seq<char>>::empty(), v@.skip(cur as int)),
        ));
        assert((n - k) as nat == 0);
        assert(acc.deep_view() + Seq::<Seq<char>>::empty() =~= acc.deep_view());
    }
    Some((acc, cur))
}

/// Parse the entry at `i`.
pub(crate) fn px_entry(v: &Vec<char>, i: usize) -> (r: Option<(crate::clip::Entry, usize)>)
    requires
        i <= v.len(),
    ensures
        match r {
            Some((val, ni)) => ni <= v.len() && p_entry(v@.skip(i as int)) == Some(
                (val@, v@.skip(ni as int)),
            ),
            None => p_entry(v@.skip(i as int)) is None,
        },
{
    let (n, r1) = match px_usize(v, i) {
        Some(x) => x,
        None => {
            return None;
        },
    };
    let (mimes, r2) = match px_strs(v, r1, n) {
        Some(x) => x,
        None => {
            return None;
        },
    };
    let (body, r3) = match px_body(v, r2) {
        Some(x) => x,
        None => {
            return None;
        },
    };
    let entry = crate::clip::Entry { mime: mimes, body };
    Some((entry, r3))
}

/// Parse one preview row at `i`.
fn px_preview(v: &Vec<char>, i: usize) -> (r: Option<(crate::clip::Preview, usize)>)
    requires
        i <= v.len(),
    ensures
        match r {
            Some((val, ni)) => ni <= v.len() && p_preview(v@.skip(i as int)) == Some(
                (val@, v@.skip(ni as int)),
            ),
            None => p_preview(v@.skip(i as int)) is None,
        },
{
    let (ix, r1) = match px_usize(v, i) {
        Some(x) => x,
        None => {
            return None;
        },
    };
    let (text, r2) = match px_str(v, r1) {
        Some(x) => x,
        None => {
            return None;
        },
    };
    let (lu, r3) = match px_u64(v, r2) {
        Some(x) => x,
        None => {
            return None;
        },
    };
    Some((crate::clip::Preview { index: ix, preview: text, last_used: lu }, r3))
}

/// Parse `n` preview rows starting at `i`.
fn px_previews(v: &Vec<char>, i: usize, n: usize) -> (r: Option<(Vec<crate::clip::Preview>, usize)>)
    requires
        i <= v.len(),
    ensures
        match r {
            Some((vals, ni)) => ni <= v.len() && p_previews(v@.skip(i as int), n as nat) == Some(
                (vals@.map_values(|p: crate::clip::Preview| p@), v@.skip(ni as int)),
            ),
            None => p_previews(v@.skip(i as int), n as nat) is None,
        },
{
    let mut acc: Vec<crate::clip::Preview> = Vec::new();
    let mut cur: usize = i;
    let mut k: usize = 0;
    proof {
        assert(acc@.map_values(|p: crate::clip::Preview| p@) =~= Seq::<
            crate::clip::PreviewV,
        >::empty());
    }
    while k < n
        invariant
            cur <= v.len(),
            k <= n,
            acc.len() == k,
            ({
                let tail = p_previews(v@.skip(cur as int), (n - k) as nat);
                match tail {
                    Some((xs, r2)) => p_previews(v@.skip(i as int), n as nat) == Some(
                        (acc@.map_values(|p: crate::clip::Preview| p@) + xs, r2),
                    ),
                    None => p_previews(v@.skip(i as int), n as nat) is None,
                }
            }),
        decreases n - k,
    {
        let ghost pre = acc@.map_values(|p: crate::clip::Preview| p@);
        let ghost m: nat = (n - k) as nat;
        match px_preview(v, cur) {
            Some((p, ni)) => {
                acc.push(p);
                proof {
                    assert(acc@.map_values(|q: crate::clip::Preview| q@) =~= pre.push(p@));
                    let nk: nat = (n - (k + 1)) as nat;
                    assert((m - 1) as nat == nk);
                    match p_previews(v@.skip(ni as int), nk) {
                        Some((xs2, r3)) => {
                            assert(p_previews(v@.skip(cur as int), m) == Some((seq![p@] + xs2, r3)));
                            assert(pre + (seq![p@] + xs2) =~= acc@.map_values(
                                |q: crate::clip::Preview| q@,
                            ) + xs2);
                        },
                        None => {
                            assert(p_previews(v@.skip(cur as int), m) is None);
                        },
                    }
                }
                cur = ni;
            },
            None => {
                proof {
                    assert(p_previews(v@.skip(cur as int), m) is None);
                }
                return None;
            },
        }
        k = k + 1;
    }
    proof {
        assert(p_previews(v@.skip(cur as int), 0) == Some(
            (Seq::<crate::clip::PreviewV>::empty(), v@.skip(cur as int)),
        ));
        assert((n - k) as nat == 0);
        assert(acc@.map_values(|p: crate::clip::Preview| p@) + Seq::<
            crate::clip::PreviewV,
        >::empty() =~= acc@.map_values(|p: crate::clip::Preview| p@));
    }
    Some((acc, cur))
}

impl crate::message::Request {
    /// Parse one line of the wire format as a request: the unique request
    /// the line encodes, or nothing when it encodes none.
    pub fn decode(line: &str) -> (r: Option<crate::message::Request>)
        ensures
            match r {
                Some(req) => p_request(line@) == Some(req@),
                None => p_request(line@) is None,
            },
    {
        let v = str_to_chars(line);
        proof {
            assert(v@.skip(0) =~= line@);
        }
        let (e, n) = take_tok(&v, 0);
        let ghost rest = v@.skip(n as int);
        if tok_eq_lit(&v, 0, e, "ping") {
            if n == v.len() {
                return Some(crate::message::Request::Ping);
            }
            proof {
                assert(rest.len() != 0);
            }
            return None;
        }
        if tok_eq_lit(&v, 0, e, "stop") {
            if n == v.len() {
                return Some(crate::message::Request::Stop);
            }
            proof {
                assert(rest.len() != 0);
            }
            return None;
        }
        if tok_eq_lit(&v, 0, e, "clear") {
            if n == v.len() {
                return Some(crate::message::Request::Clear);
            }
            proof {
                assert(rest.len() != 0);
            }
            return None;
        }
        if tok_eq_lit(&v, 0, e, "groups") {
            if n == v.len() {
                return Some(crate::message::Request::Groups);
            }
            proof {
                assert(rest.len() != 0);
            }
            return None;
        }
        if tok_eq_lit(&v, 0, e, "copy") {
            let (entry, r1) = match px_entry(&v, n) {
                Some(x) => x,
                None => {
                    return None;
                },
            };
            let (primary, r2) = match px_bool(&v, r1) {
                Some(x) => x,
                None => {
                    return None;
                },
            };
            let (group, r3) = match px_opt_str(&v, r2) {
                Some(x) => x,
                None => {
                    return None;
                },
            };
            let (index, r4) = match px_opt_usize(&v, r3) {
                Some(x) => x,
                None => {
                    return None;
                },
            };
            if r4 == v.len() {
                return Some(crate::message::Request::Copy { entry, primary, group, index });
            }
            proof {
                assert(v@.skip(r4 as int).len() != 0);
            }
            return None;
        }
        if tok_eq_lit(&v, 0, e, "select") {
            let (index, r1) = match px_usize(&v, n) {
                Some(x) => x,
                None => {
                    return None;
                },
            };
            let (primary, r2) = match px_bool(&v, r1) {
                Some(x) => x,
                None => {
                    return None;
                },
            };
            let (group, r3) = match px_opt_str(&v, r2) {
                Some(x) => x,
                None => {
                    return None;
                },
            };
            if r3 == v.len() {
                return Some(crate::message::Request::Select { index, primary, group });
            }
            proof {
                assert(v@.skip(r3 as int).len() != 0);
            }
            return None;
        }
        if tok_eq_lit(&v, 0, e, "list") {
            let (length, r1) = match px_usize(&v, n) {
                Some(x) => x,
                None => {
                    return None;
                },
            };
            let (group, r2) = match px_opt_str(&v, r1) {
                Some(x) => x,
                None => {
                    return None;
                },
            };
            if r2 == v.len() {
                return Some(crate::message::Request::List { length, group });
            }
            proof {
                assert(v@.skip(r2 as int).len() != 0);
            }
            return None;
        }
        if tok_eq_lit(&v, 0, e, "delete") {
            let (index, r1) = match px_usize(&v, n) {
                Some(x) => x,
                None => {
                    return None;
                },
            };
            let (group, r2) = match px_opt_str(&v, r1) {
                Some(x) => x,
                None => {
                    return None;
                },
            };
            if r2 == v.len() {
                return Some(crate::message::Request::Delete { index, group });
            }
            proof {
                assert(v@.skip(r2 as int).len() != 0);
            }
            return None;
        }
        if tok_eq_lit(&v, 0, e, "find") {
            let (index, r1) = match px_opt_usize(&v, n) {
                Some(x) => x,
                None => {
                    return None;
                },
            };
            let (group, r2) = match px_opt_str(&v, r1) {
                Some(x) => x,
                None => {
                    return None;
                },
            };
            if r2 == v.len() {
                return Some(crate::message::Request::Find { index, group });
            }
            proof {
                assert(v@.skip(r2 as int).len() != 0);
            }
            return None;
        }
        if tok_eq_lit(&v, 0, e, "wipe") {
            let (wipe, r1) = match px_wipe(&v, n) {
                Some(x) => x,
                None => {
                    return None;
                },
            };
            let (group, r2) = match px_opt_str(&v, r1) {
                Some(x) => x,
                None => {
                    return None;
                },
            };
            if r2 == v.len() {
                return Some(crate::message::Request::Wipe { wipe, group });
            }
            proof {
                assert(v@.skip(r2 as int).len() != 0);
            }
            return None;
        }
        None
    }
}

impl crate::message::Response {
    /// Parse one line of the wire format as a response: the unique
    /// response the line encodes, or nothing when it encodes none.
    pub fn decode(line: &str) -> (r: Option<crate::message::Response>)
        ensures
            match r {
                Some(resp) => p_response(line@) == Some(resp@),
                None => p_response(line@) is None,
            },
    {
        let v = str_to_chars(line);
        proof {
            assert(v@.skip(0) =~= line@);
        }
        let (e, n) = take_tok(&v, 0);
        let ghost rest = v@.skip(n as int);
        if tok_eq_lit(&v, 0, e, "ok") {
            if n == v.len() {
                return Some(crate::message::Response::Okay);
            }
            proof {
                assert(rest.len() != 0);
            }
            return None;
        }
        if tok_eq_lit(&v, 0, e, "error") {
            let (error, r1) = match px_str(&v, n) {
                Some(x) => x,
                None => {
                    return None;
                },
            };
            if r1 == v.len() {
                return Some(crate::message::Response::Error { error });
            }
            proof {
                assert(v@.skip(r1 as int).len() != 0);
            }
            return None;
        }
        if tok_eq_lit(&v, 0, e, "groups") {
            let (cnt, r1) = match px_usize(&v, n) {
                Some(x) => x,
                None => {
                    return None;
                },
            };
            let (groups, r2) = match px_strs(&v, r1, cnt) {
                Some(x) => x,
                None => {
                    return None;
                },
            };
            if r2 == v.len() {
                return Some(crate::message::Response::Groups { groups });
            }
            proof {
                assert(v@.skip(r2 as int).len() != 0);
            }
            return None;
        }
        if tok_eq_lit(&v, 0, e, "entry") {
            let (entry, r1) = match px_entry(&v, n) {
                Some(x) => x,
                None => {
                    return None;
                },
            };
            let (index, r2) = match px_usize(&v, r1) {
                Some(x) => x,
                None => {
                    return None;
                },
            };
            if r2 == v.len() {
                return Some(crate::message::Response::Entry { entry, index });
            }
            proof {
                assert(v@.skip(r2 as int).len() != 0);
            }
            return None;
        }
        if tok_eq_lit(&v, 0, e, "previews") {
            let (cnt, r1) = match px_usize(&v, n) {
                Some(x) => x,
                None => {
                    return None;
                },
            };
            let (previews, r2) = match px_previews(&v, r1, cnt) {
                Some(x) => x,
                None => {
                    return None;
                },
            };
            if r2 == v.len() {
                return Some(crate::message::Response::Previews { previews });
            }
            proof {
                assert(v@.skip(r2 as int).len() != 0);
            }
            return None;
        }
        None
    }
}

/// An escaped string holds no newline.
pub proof fn lemma_escape_no_newline(s: Seq<char>)
    ensures
        forall|i: int| 0 <= i < spec_escape(s).len() ==> #[trigger] spec_escape(s)[i] != '\n',
    decreases s.len(),
{
    if s.len() > 0 {
        lemma_escape_no_newline(s.subrange(1, s.len() as int));
        assert forall|i: int| 0 <= i < spec_escape(s).len() implies #[trigger] spec_escape(s)[i]
            != '\n' by {
            let head = esc1(s[0]);
            if i >= head.len() {
                assert(spec_escape(s)[i] == spec_escape(s.subrange(1, s.len() as int))[i
                    - head.len()]);
            }
        }
    }
}

} // verus!
