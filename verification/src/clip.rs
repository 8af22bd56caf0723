//! Clipboard payloads: bodies, entries and previews.
use vstd::prelude::*;

verus! {

/// Mathematical value of a clipboard body: either decoded text or raw bytes.
#[verifier::ext_equal]
pub enum BodyV {
    Text(Seq<char>),
    Data(Seq<u8>),
}

/// A clipboard body is UTF-8 text or an opaque byte blob.
#[derive(Debug, Clone)]
pub enum ClipBody {
    Text(String),
    Data(Vec<u8>),
}

impl View for ClipBody {
    type V = BodyV;

    open spec fn view(&self) -> BodyV {
        match self {
            ClipBody::Text(t) => BodyV::Text(t@),
            ClipBody::Data(d) => BodyV::Data(d@),
        }
    }
}

/// Two bodies are the same when they are the same kind and hold the same
/// content.  Entry identity is defined by this relation alone.
pub open spec fn body_eq(a: BodyV, b: BodyV) -> bool {
    match (a, b) {
        (BodyV::Text(x), BodyV::Text(y)) => x == y,
        (BodyV::Data(x), BodyV::Data(y)) => x == y,
        _ => false,
    }
}

/// Compare two byte vectors element by element.
pub fn bytes_eq(a: &Vec<u8>, b: &Vec<u8>) -> (r: bool)
    ensures
        r == (a@ == b@),
{
    if a.len() != b.len() {
        return false;
    }
    let mut i: usize = 0;
    while i < a.len()
        invariant
            i <= a.len(),
            a.len() == b.len(),
            forall|j: int| 0 <= j < i ==> a@[j] == b@[j],
        decreases a.len() - i,
    {
        if a[i] != b[i] {
            return false;
        }
        i = i + 1;
    }
    proof {
        assert(a@ =~= b@);
    }
    true
}

impl ClipBody {
    /// Whether the body holds no content at all.
    pub open spec fn spec_is_empty(&self) -> bool {
        match self@ {
            BodyV::Text(t) => t.len() == 0,
            BodyV::Data(d) => d.len() == 0,
        }
    }

    /// Check if the clipboard content is empty.
    pub fn is_empty(&self) -> (r: bool)
        ensures
            r == self.spec_is_empty(),
    {
        match self {
            ClipBody::Text(t) => t.as_str().is_empty(),
            ClipBody::Data(d) => d.len() == 0,
        }
    }

    /// Decide whether this body equals another, by kind and content.
    pub fn same(&self, other: &ClipBody) -> (r: bool)
        ensures
            r == body_eq(self@, other@),
    {
        match (self, other) {
            (ClipBody::Text(a), ClipBody::Text(b)) => a.eq(b),
            (ClipBody::Data(a), ClipBody::Data(b)) => bytes_eq(a, b),
            _ => false,
        }
    }
}

/// Copy a byte vector element by element.
pub fn dup_bytes(v: &Vec<u8>) -> (r: Vec<u8>)
    ensures
        r@ == v@,
{
    let mut out: Vec<u8> = Vec::new();
    let mut i: usize = 0;
    while i < v.len()
        invariant
            i <= v.len(),
            out@ == v@.subrange(0, i as int),
        decreases v.len() - i,
    {
        out.push(v[i]);
        i = i + 1;
        proof {
            assert(out@ =~= v@.subrange(0, i as int));
        }
    }
    proof {
        assert(out@ =~= v@);
    }
    out
}

/// Copy a vector of strings element by element.
pub fn dup_strings(v: &Vec<String>) -> (r: Vec<String>)
    ensures
        r.deep_view() == v.deep_view(),
{
    let mut out: Vec<String> = Vec::new();
    let mut i: usize = 0;
    while i < v.len()
        invariant
            i <= v.len(),
            out.len() == i,
            forall|j: int| 0 <= j < i ==> out@[j]@ == v@[j]@,
        decreases v.len() - i,
    {
        out.push(v[i].clone());
        i = i + 1;
    }
    proof {
        assert(out.deep_view() =~= v.deep_view());
    }
    out
}

impl ClipBody {
    /// Copy the body, content for content.
    pub fn duplicate(&self) -> (r: ClipBody)
        ensures
            r@ == self@,
    {
        match self {
            ClipBody::Text(t) => ClipBody::Text(t.clone()),
            ClipBody::Data(d) => ClipBody::Data(dup_bytes(d)),
        }
    }
}

/// Mathematical value of an entry: its MIME hints and its body.
#[verifier::ext_equal]
pub struct EntryV {
    pub mime: Seq<Seq<char>>,
    pub body: BodyV,
}

/// An immutable clipboard payload: an ordered list of candidate MIME type
/// strings (most specific first) and a body.  Equality between entries
/// compares bodies only; the MIME lists may differ.
#[derive(Debug, Clone)]
pub struct Entry {
    pub mime: Vec<String>,
    pub body: ClipBody,
}

impl View for Entry {
    type V = EntryV;

    open spec fn view(&self) -> EntryV {
        EntryV { mime: self.mime.deep_view(), body: self.body@ }
    }
}

impl Entry {
    /// Check if the entry's body is empty.
    pub fn is_empty(&self) -> (r: bool)
        ensures
            r == self.body.spec_is_empty(),
    {
        self.body.is_empty()
    }

    /// Decide whether this entry equals another, comparing bodies only.
    pub fn same(&self, other: &Entry) -> (r: bool)
        ensures
            r == body_eq(self@.body, other@.body),
    {
        self.body.same(&other.body)
    }

    /// Copy the entry, hints and body alike.
    pub fn duplicate(&self) -> (r: Entry)
        ensures
            r@ == self@,
    {
        Entry { mime: dup_strings(&self.mime), body: self.body.duplicate() }
    }
}

/// The bytes of a body: text encoded as UTF-8, data as it stands.
pub open spec fn body_bytes(b: BodyV) -> Seq<u8> {
    match b {
        BodyV::Text(t) => vstd::utf8::encode_utf8(t),
        BodyV::Data(d) => d,
    }
}

impl ClipBody {
    /// The body's content as bytes.
    pub fn as_bytes(&self) -> (r: &[u8])
        ensures
            r@ == body_bytes(self@),
    {
        match self {
            ClipBody::Text(t) => t.as_str().as_bytes(),
            ClipBody::Data(d) => d.as_slice(),
        }
    }
}

/// The candidate MIME list offered for plain text, most specific first.
pub open spec fn base_text_mimes() -> Seq<Seq<char>> {
    seq!["text/plain;charset=utf-8"@, "text/plain"@, "STRING"@, "UTF8_STRING"@, "TEXT"@]
}

/// The candidate MIME list offered for images, most specific first.
pub open spec fn base_image_mimes() -> Seq<Seq<char>> {
    seq![
        "text/plain"@,
        "TEXT"@,
        "STRING"@,
        "UTF8_STRING"@,
        "text/plain;charset=utf-8"@,
        "SAVE_TARGETS"@,
        "MULTIPLE"@,
        "image/png"@,
        "text/html"@,
    ]
}

/// A base list with one extra hint put first, unless already offered.
pub open spec fn with_hint(base: Seq<Seq<char>>, m: Option<Seq<char>>) -> Seq<Seq<char>> {
    match m {
        None => base,
        Some(s) => if base.contains(s) {
            base
        } else {
            seq![s] + base
        },
    }
}

/// The hint carried by an optional MIME argument.
pub open spec fn opt_mime(m: &Option<String>) -> Option<Seq<char>> {
    match m {
        Some(s) => Some(s@),
        None => None,
    }
}

/// The text MIME candidates, with an optional extra hint first.
pub fn text_mimes(mime: Option<String>) -> (r: Vec<String>)
    ensures
        r.deep_view() == with_hint(base_text_mimes(), opt_mime(&mime)),
{
    let mut base: Vec<String> = Vec::new();
    base.push(String::from_str("text/plain;charset=utf-8"));
    base.push(String::from_str("text/plain"));
    base.push(String::from_str("STRING"));
    base.push(String::from_str("UTF8_STRING"));
    base.push(String::from_str("TEXT"));
    proof {
        assert(base.deep_view() =~= base_text_mimes());
    }
    match mime {
        None => base,
        Some(m) => {
            let present = crate::mime::str_eq_str(m.as_str(), "text/plain;charset=utf-8")
                || crate::mime::str_eq_str(m.as_str(), "text/plain") || crate::mime::str_eq_str(
                m.as_str(),
                "STRING",
            ) || crate::mime::str_eq_str(m.as_str(), "UTF8_STRING") || crate::mime::str_eq_str(
                m.as_str(),
                "TEXT",
            );
            proof {
                if base_text_mimes().contains(m@) {
                    let i = choose|i: int|
                        0 <= i < base_text_mimes().len() && base_text_mimes()[i] == m@;
                    assert(i == 0 || i == 1 || i == 2 || i == 3 || i == 4);
                }
            }
            if present {
                base
            } else {
                let ghost mv = m@;
                base.insert(0, m);
                proof {
                    assert(base.deep_view() =~= seq![mv] + base_text_mimes());
                }
                base
            }
        },
    }
}

/// The image MIME candidates, with an optional extra hint first.
pub fn image_mimes(mime: Option<String>) -> (r: Vec<String>)
    ensures
        r.deep_view() == with_hint(base_image_mimes(), opt_mime(&mime)),
{
    let mut base: Vec<String> = Vec::new();
    base.push(String::from_str("text/plain"));
    base.push(String::from_str("TEXT"));
    base.push(String::from_str("STRING"));
    base.push(String::from_str("UTF8_STRING"));
    base.push(String::from_str("text/plain;charset=utf-8"));
    base.push(String::from_str("SAVE_TARGETS"));
    base.push(String::from_str("MULTIPLE"));
    base.push(String::from_str("image/png"));
    base.push(String::from_str("text/html"));
    proof {
        assert(base.deep_view() =~= base_image_mimes());
    }
    match mime {
        None => base,
        Some(m) => {
            let present = crate::mime::str_eq_str(m.as_str(), "text/plain")
                || crate::mime::str_eq_str(m.as_str(), "TEXT") || crate::mime::str_eq_str(
                m.as_str(),
                "STRING",
            ) || crate::mime::str_eq_str(m.as_str(), "UTF8_STRING") || crate::mime::str_eq_str(
                m.as_str(),
                "text/plain;charset=utf-8",
            ) || crate::mime::str_eq_str(m.as_str(), "SAVE_TARGETS") || crate::mime::str_eq_str(
                m.as_str(),
                "MULTIPLE",
            ) || crate::mime::str_eq_str(m.as_str(), "image/png") || crate::mime::str_eq_str(
                m.as_str(),
                "text/html",
            );
            proof {
                if base_image_mimes().contains(m@) {
                    let i = choose|i: int|
                        0 <= i < base_image_mimes().len() && base_image_mimes()[i] == m@;
                    assert(0 <= i < 9);
                }
            }
            if present {
                base
            } else {
                let ghost mv = m@;
                base.insert(0, m);
                proof {
                    assert(base.deep_view() =~= seq![mv] + base_image_mimes());
                }
                base
            }
        },
    }
}

/// The characters the whitespace rules treat as blank.
pub open spec fn is_space(c: char) -> bool {
    c == ' ' || c == '\t' || c == '\n' || c == '\r' || c == '\u{b}' || c == '\u{c}' || c
        == '\u{85}' || c == '\u{a0}' || c == '\u{1680}' || c == '\u{2000}' || c == '\u{2001}' || c
        == '\u{2002}' || c == '\u{2003}' || c == '\u{2004}' || c == '\u{2005}' || c == '\u{2006}'
        || c == '\u{2007}' || c == '\u{2008}' || c == '\u{2009}' || c == '\u{200a}' || c
        == '\u{2028}' || c == '\u{2029}' || c == '\u{202f}' || c == '\u{205f}' || c == '\u{3000}'
}

/// Check whether a character is whitespace.
pub fn is_space_exec(c: char) -> (r: bool)
    ensures
        r == is_space(c),
{
    c == ' ' || c == '\t' || c == '\n' || c == '\r' || c == '\u{b}' || c == '\u{c}' || c
        == '\u{85}' || c == '\u{a0}' || c == '\u{1680}' || c == '\u{2000}' || c == '\u{2001}' || c
        == '\u{2002}' || c == '\u{2003}' || c == '\u{2004}' || c == '\u{2005}' || c == '\u{2006}'
        || c == '\u{2007}' || c == '\u{2008}' || c == '\u{2009}' || c == '\u{200a}' || c
        == '\u{2028}' || c == '\u{2029}' || c == '\u{202f}' || c == '\u{205f}' || c == '\u{3000}'
}

/// The string without its leading whitespace.
pub open spec fn skip_leading(s: Seq<char>) -> Seq<char>
    decreases s.len(),
{
    if s.len() > 0 && is_space(s[0]) {
        skip_leading(s.subrange(1, s.len() as int))
    } else {
        s
    }
}

/// The string without its trailing whitespace.
pub open spec fn skip_trailing(s: Seq<char>) -> Seq<char>
    decreases s.len(),
{
    if s.len() > 0 && is_space(s.last()) {
        skip_trailing(s.drop_last())
    } else {
        s
    }
}

/// The string without leading or trailing whitespace.
pub open spec fn trim_of(s: Seq<char>) -> Seq<char> {
    skip_trailing(skip_leading(s))
}

/// Skipping the known leading whitespace leaves the tail.
pub proof fn lemma_skip_leading(s: Seq<char>, lo: int)
    requires
        0 <= lo <= s.len(),
        forall|i: int| 0 <= i < lo ==> is_space(#[trigger] s[i]),
        lo < s.len() ==> !is_space(s[lo]),
    ensures
        skip_leading(s) == s.subrange(lo, s.len() as int),
    decreases s.len(),
{
    if lo == 0 {
        assert(s.subrange(0, s.len() as int) =~= s);
    } else {
        let t = s.subrange(1, s.len() as int);
        assert(is_space(s[0]));
        assert forall|i: int| 0 <= i < lo - 1 implies is_space(#[trigger] t[i]) by {
            assert(t[i] == s[i + 1]);
        }
        lemma_skip_leading(t, lo - 1);
        assert(t.subrange(lo - 1, t.len() as int) =~= s.subrange(lo, s.len() as int));
    }
}

/// Dropping the known trailing whitespace leaves the head.
pub proof fn lemma_skip_trailing(s: Seq<char>, hi: int)
    requires
        0 <= hi <= s.len(),
        forall|i: int| hi <= i < s.len() ==> is_space(#[trigger] s[i]),
        hi > 0 ==> !is_space(s[hi - 1]),
    ensures
        skip_trailing(s) == s.subrange(0, hi),
    decreases s.len(),
{
    if hi == s.len() {
        if s.len() > 0 && is_space(s.last()) {
        }
        assert(s.subrange(0, s.len() as int) =~= s);
    } else {
        assert(is_space(s.last()));
        let t = s.drop_last();
        assert forall|i: int| hi <= i < t.len() implies is_space(#[trigger] t[i]) by {
            assert(t[i] == s[i]);
        }
        lemma_skip_trailing(t, hi);
        assert(t.subrange(0, hi) =~= s.subrange(0, hi));
    }
}

impl ClipBody {
    /// The body's content as bytes, text trimmed of surrounding
    /// whitespace first.
    pub fn trim(&self) -> (r: Vec<u8>)
        ensures
            r@ == body_bytes(
                match self@ {
                    BodyV::Text(t) => BodyV::Text(trim_of(t)),
                    BodyV::Data(d) => BodyV::Data(d),
                },
            ),
    {
        match self {
            ClipBody::Data(d) => dup_bytes(d),
            ClipBody::Text(t) => {
                let s = t.as_str();
                let len = s.unicode_len();
                let mut lo: usize = 0;
                while lo < len && is_space_exec(s.get_char(lo))
                    invariant
                        lo <= len,
                        len == s@.len(),
                        forall|i: int| 0 <= i < lo ==> is_space(#[trigger] s@[i]),
                    decreases len - lo,
                {
                    lo = lo + 1;
                }
                if lo == len {
                    proof {
                        lemma_skip_leading(s@, len as int);
                        assert(s@.subrange(len as int, len as int) =~= Seq::<char>::empty());
                        lemma_skip_trailing(Seq::<char>::empty(), 0);
                        assert(Seq::<char>::empty().subrange(0, 0) =~= Seq::<char>::empty());
                    }
                    let out: Vec<u8> = Vec::new();
                    proof {
                        assert(out@ =~= Seq::<u8>::empty());
                    }
                    return out;
                }
                let mut hi: usize = len;
                while hi > lo && is_space_exec(s.get_char(hi - 1))
                    invariant
                        lo <= hi <= len,
                        len == s@.len(),
                        lo < len,
                        !is_space(s@[lo as int]),
                        forall|i: int| 0 <= i < lo ==> is_space(#[trigger] s@[i]),
                        forall|i: int| hi <= i < len ==> is_space(#[trigger] s@[i]),
                    decreases hi,
                {
                    hi = hi - 1;
                }
                proof {
                    lemma_skip_leading(s@, lo as int);
                    let u = s@.subrange(lo as int, len as int);
                    assert(hi > lo);
                    assert(!is_space(u[hi - lo - 1])) by {
                        assert(u[hi - lo - 1] == s@[hi - 1]);
                    }
                    assert forall|i: int| hi - lo <= i < u.len() implies is_space(
                        #[trigger] u[i],
                    ) by {
                        assert(u[i] == s@[i + lo]);
                    }
                    lemma_skip_trailing(u, hi - lo);
                    assert(u.subrange(0, hi - lo) =~= s@.subrange(lo as int, hi as int));
                }
                let sub = s.substring_char(lo, hi);
                sub.as_bytes_vec()
            },
        }
    }

    /// Compare two bodies, ignoring surrounding whitespace in text.
    pub fn matches(&self, other: &ClipBody) -> (r: bool)
        ensures
            r == (body_bytes(
                match self@ {
                    BodyV::Text(t) => BodyV::Text(trim_of(t)),
                    BodyV::Data(d) => BodyV::Data(d),
                },
            ) == body_bytes(
                match other@ {
                    BodyV::Text(t) => BodyV::Text(trim_of(t)),
                    BodyV::Data(d) => BodyV::Data(d),
                },
            )),
    {
        let a = self.trim();
        let b = other.trim();
        bytes_eq(&a, &b)
    }
}

/// One character of a quoted rendering: tabs, newlines, returns and
/// backslashes become two-character escapes.
pub open spec fn qesc1(c: char) -> Seq<char> {
    if c == '\\' {
        seq!['\\', '\\']
    } else if c == '\n' {
        seq!['\\', 'n']
    } else if c == '\t' {
        seq!['\\', 't']
    } else if c == '\r' {
        seq!['\\', 'r']
    } else {
        seq![c]
    }
}

/// The quoted rendering of a string shown when it is all whitespace.
pub open spec fn quoted(s: Seq<char>) -> Seq<char>
    decreases s.len(),
{
    if s.len() == 0 {
        Seq::empty()
    } else {
        qesc1(s[0]) + quoted(s.subrange(1, s.len() as int))
    }
}

/// Quoting one more character appends its escape.
pub proof fn lemma_quoted_push(s: Seq<char>, c: char)
    ensures
        quoted(s.push(c)) == quoted(s) + qesc1(c),
    decreases s.len(),
{
    if s.len() == 0 {
        let t = s.push(c);
        assert(t.len() == 1);
        assert(t[0] == c);
        assert(t.subrange(1, 1) =~= Seq::<char>::empty());
        assert(quoted(t) == qesc1(t[0]) + quoted(t.subrange(1, 1)));
        assert(quoted(t) =~= qesc1(c));
        assert(quoted(s) + qesc1(c) =~= qesc1(c));
    } else {
        let t = s.push(c);
        assert(t[0] == s[0]);
        assert(t.subrange(1, t.len() as int) =~= s.subrange(1, s.len() as int).push(c));
        lemma_quoted_push(s.subrange(1, s.len() as int), c);
        assert(quoted(t) =~= quoted(s) + qesc1(c));
    }
}

/// Whitespace runs collapsed to single spaces, leading and trailing
/// whitespace dropped: the folding state is the output so far and
/// whether a separating space is pending.
pub open spec fn collapse_go(s: Seq<char>, i: int, acc: Seq<char>, pending: bool) -> Seq<char>
    decreases s.len() - i,
{
    if i < 0 || i >= s.len() {
        acc
    } else if is_space(s[i]) {
        collapse_go(s, i + 1, acc, acc.len() > 0)
    } else if pending {
        collapse_go(s, i + 1, acc.push(' ').push(s[i]), false)
    } else {
        collapse_go(s, i + 1, acc.push(s[i]), false)
    }
}

/// The whitespace-collapsed form of a string.
pub open spec fn collapse(s: Seq<char>) -> Seq<char> {
    collapse_go(s, 0, Seq::empty(), false)
}

/// The preview of a rendered string: quoted when all whitespace, then
/// collapsed, then cut to the width with a trailing ellipsis.
pub open spec fn spec_preview(s: Seq<char>, max: nat) -> Seq<char> {
    let base = if forall|i: int| 0 <= i < s.len() ==> is_space(#[trigger] s[i]) {
        seq!['"'] + quoted(s) + seq!['"']
    } else {
        s
    };
    let c = collapse(base);
    if c.len() > max {
        let keep = if max >= 3 {
            (max - 3) as nat
        } else {
            0nat
        };
        c.subrange(0, keep as int) + "..."@
    } else {
        c
    }
}

/// Render a whitespace-collapsed, width-bounded preview of a string.
#[verifier::rlimit(30)]
pub fn render_preview(s: &str, max_width: usize) -> (r: String)
    ensures
        r@ == spec_preview(s@, max_width as nat),
{
    let chars = crate::codec::str_to_chars(s);
    // Quote the string when every character is whitespace.
    let mut all_ws = true;
    let mut i: usize = 0;
    while i < chars.len()
        invariant
            i <= chars.len(),
            chars@ == s@,
            all_ws == (forall|j: int| 0 <= j < i ==> is_space(#[trigger] chars@[j])),
        decreases chars.len() - i,
    {
        let ghost pre_ws = all_ws;
        if !is_space_exec(chars[i]) {
            all_ws = false;
        }
        proof {
            if all_ws {
                assert forall|j: int| 0 <= j < i + 1 implies is_space(#[trigger] chars@[j]) by {}
            } else {
                if forall|j: int| 0 <= j < i + 1 ==> is_space(#[trigger] chars@[j]) {
                    assert(is_space(chars@[i as int]));
                }
            }
        }
        i = i + 1;
    }
    let base: Vec<char> = if all_ws {
        let mut q: Vec<char> = Vec::new();
        q.push('"');
        let ghost qmark = q@;
        let mut k: usize = 0;
        while k < chars.len()
            invariant
                k <= chars.len(),
                chars@ == s@,
                qmark == seq!['"'],
                q@ == qmark + quoted(chars@.subrange(0, k as int)),
            decreases chars.len() - k,
        {
            let c = chars[k];
            let ghost prefix = chars@.subrange(0, k as int);
            if c == '\\' {
                q.push('\\');
                q.push('\\');
            } else if c == '\n' {
                q.push('\\');
                q.push('n');
            } else if c == '\t' {
                q.push('\\');
                q.push('t');
            } else if c == '\r' {
                q.push('\\');
                q.push('r');
            } else {
                q.push(c);
            }
            proof {
                lemma_quoted_push(prefix, c);
                assert(prefix.push(c) =~= chars@.subrange(0, k + 1));
                assert(q@ =~= qmark + quoted(chars@.subrange(0, k + 1)));
            }
            k = k + 1;
        }
        q.push('"');
        proof {
            assert(chars@.subrange(0, chars@.len() as int) =~= chars@);
            assert(q@ =~= seq!['"'] + quoted(s@) + seq!['"']);
        }
        q
    } else {
        let c = crate::codec::str_to_chars(s);
        proof {
            assert(c@ == s@);
        }
        c
    };
    let ghost basev = base@;
    // Collapse whitespace runs.
    let mut out: Vec<char> = Vec::new();
    let mut pending = false;
    let mut p: usize = 0;
    while p < base.len()
        invariant
            p <= base.len(),
            base@ == basev,
            collapse(basev) == collapse_go(basev, p as int, out@, pending),
            pending ==> out@.len() > 0,
        decreases base.len() - p,
    {
        let c = base[p];
        if is_space_exec(c) {
            if out.len() > 0 {
                pending = true;
            }
        } else if pending {
            out.push(' ');
            out.push(c);
            pending = false;
        } else {
            out.push(c);
        }
        p = p + 1;
    }
    // Cut to the width.
    if out.len() > max_width {
        let keep = if max_width >= 3 {
            max_width - 3
        } else {
            0
        };
        let ghost outv = out@;
        out.truncate(keep);
        out.push('.');
        out.push('.');
        out.push('.');
        proof {
            reveal_strlit("...");
            assert(out@ =~= outv.subrange(0, keep as int) + "..."@);
        }
        crate::codec::chars_to_string(&out)
    } else {
        crate::codec::chars_to_string(&out)
    }
}

/// Every hint of the list names plain text.
pub open spec fn all_text_mimes(mimes: Seq<Seq<char>>) -> bool {
    forall|i: int| 0 <= i < mimes.len() ==> crate::mime::is_text_mime(#[trigger] mimes[i])
}

/// Some hint of the list names an image.
pub open spec fn any_image_mime(mimes: Seq<Seq<char>>) -> bool {
    exists|i: int| 0 <= i < mimes.len() && crate::mime::is_image_mime(#[trigger] mimes[i])
}

impl Entry {
    /// Build a text entry: the text mimetype candidates, with the given
    /// hint first when one is given.
    pub fn text(content: String, mime: Option<String>) -> (r: Entry)
        ensures
            r@.body == BodyV::Text(content@),
            r@.mime == with_hint(base_text_mimes(), opt_mime(&mime)),
    {
        Entry { mime: text_mimes(mime), body: ClipBody::Text(content) }
    }

    /// Build a data entry.  With a hint given, the candidate list follows
    /// the hint's class exactly; without one, the system database's guess
    /// decides the class.
    pub fn data(content: &[u8], mime: Option<String>) -> (r: Entry)
        ensures
            r@.body == BodyV::Data(content@),
            match opt_mime(&mime) {
                Some(m) => r@.mime == spec_data_mimes(m),
                None => true,
            },
    {
        let m = match mime {
            Some(m) => m,
            None => crate::mime::guess_mime_data(content),
        };
        let mimes = if crate::mime::is_text(m.as_str()) {
            text_mimes(Some(m))
        } else if crate::mime::is_image(m.as_str()) {
            image_mimes(Some(m))
        } else {
            let mut only: Vec<String> = Vec::new();
            let ghost mv = m@;
            only.push(m);
            proof {
                assert(only.deep_view() =~= seq![mv]);
            }
            only
        };
        Entry { mime: mimes, body: ClipBody::Data(vstd::slice::slice_to_vec(content)) }
    }

    /// Build an entry from a captured clipboard event: all-text offers
    /// take the text candidates, image offers the image candidates, and
    /// anything else keeps the offered hints.
    pub fn from_capture(mimes: Vec<String>, body: ClipBody) -> (r: Entry)
        ensures
            r@.body == body@,
            r@.mime == (if all_text_mimes(mimes.deep_view()) {
                base_text_mimes()
            } else if any_image_mime(mimes.deep_view()) {
                base_image_mimes()
            } else {
                mimes.deep_view()
            }),
    {
        let mut all_text = true;
        let mut any_image = false;
        let mut i: usize = 0;
        while i < mimes.len()
            invariant
                i <= mimes.len(),
                all_text == (forall|j: int|
                    0 <= j < i ==> crate::mime::is_text_mime(#[trigger] mimes.deep_view()[j])),
                any_image == (exists|j: int|
                    0 <= j < i && crate::mime::is_image_mime(#[trigger] mimes.deep_view()[j])),
            decreases mimes.len() - i,
        {
            let ghost pre_text = all_text;
            let ghost pre_img = any_image;
            if !crate::mime::is_text(mimes[i].as_str()) {
                all_text = false;
            }
            if crate::mime::is_image(mimes[i].as_str()) {
                any_image = true;
            }
            proof {
                assert(mimes.deep_view()[i as int] == mimes@[i as int]@);
                if all_text {
                    assert forall|j: int|
                        0 <= j < i + 1 implies crate::mime::is_text_mime(
                        #[trigger] mimes.deep_view()[j],
                    ) by {}
                } else {
                    if forall|j: int|
                        0 <= j < i + 1 ==> crate::mime::is_text_mime(
                            #[trigger] mimes.deep_view()[j],
                        ) {
                        assert(crate::mime::is_text_mime(mimes.deep_view()[i as int]));
                    }
                }
                if any_image {
                    if pre_img {
                    } else {
                        assert(crate::mime::is_image_mime(mimes.deep_view()[i as int]));
                    }
                } else {
                    if exists|j: int|
                        0 <= j < i + 1 && crate::mime::is_image_mime(
                            #[trigger] mimes.deep_view()[j],
                        ) {
                        let j = choose|j: int|
                            0 <= j < i + 1 && crate::mime::is_image_mime(
                                #[trigger] mimes.deep_view()[j],
                            );
                        assert(j == i);
                    }
                }
            }
            i = i + 1;
        }
        let hints = if all_text {
            text_mimes(None)
        } else if any_image {
            image_mimes(None)
        } else {
            mimes
        };
        Entry { mime: hints, body }
    }

    /// The entry's content as bytes.
    pub fn as_bytes(&self) -> (r: &[u8])
        ensures
            r@ == body_bytes(self@.body),
    {
        self.body.as_bytes()
    }

    /// Whether the entry is text: a text body, or every hint textual.
    pub fn is_text(&self) -> (r: bool)
        ensures
            r == (self@.body is Text || all_text_mimes(self@.mime)),
    {
        match &self.body {
            ClipBody::Text(_) => true,
            ClipBody::Data(_) => {
                let mut i: usize = 0;
                while i < self.mime.len()
                    invariant
                        i <= self.mime.len(),
                        self@.body is Data,
                        forall|j: int|
                            0 <= j < i ==> crate::mime::is_text_mime(
                                #[trigger] self.mime.deep_view()[j],
                            ),
                    decreases self.mime.len() - i,
                {
                    if !crate::mime::is_text(self.mime[i].as_str()) {
                        proof {
                            assert(self.mime.deep_view()[i as int] == self.mime@[i as int]@);
                            assert(!crate::mime::is_text_mime(self@.mime[i as int]));
                        }
                        return false;
                    }
                    proof {
                        assert(self.mime.deep_view()[i as int] == self.mime@[i as int]@);
                    }
                    i = i + 1;
                }
                true
            },
        }
    }

    /// The first hint that looks like a full type (it holds a slash),
    /// else the first hint, else a fixed marker.
    pub fn mime(&self) -> (r: String)
        ensures
            ({
                let mv = self@.mime;
                if exists|j: int| 0 <= j < mv.len() && (#[trigger] mv[j]).contains('/') {
                    exists|j: int|
                        0 <= j < mv.len() && (#[trigger] mv[j]).contains('/') && r@ == mv[j] && (
                        forall|k: int| 0 <= k < j ==> !(#[trigger] mv[k]).contains('/'))
                } else if mv.len() > 0 {
                    r@ == mv[0]
                } else {
                    r@ == "N/A"@
                }
            }),
    {
        let ghost mv = self@.mime;
        let mut i: usize = 0;
        while i < self.mime.len()
            invariant
                i <= self.mime.len(),
                mv == self@.mime,
                forall|k: int| 0 <= k < i ==> !(#[trigger] mv[k]).contains('/'),
            decreases self.mime.len() - i,
        {
            let s = self.mime[i].as_str();
            let n = s.unicode_len();
            let mut k: usize = 0;
            let mut found = false;
            while k < n
                invariant
                    k <= n,
                    n == s@.len(),
                    found == (exists|q: int| 0 <= q < k && s@[q] == '/'),
                decreases n - k,
            {
                if s.get_char(k) == '/' {
                    found = true;
                    proof {
                        assert(0 <= k < k + 1 && s@[k as int] == '/');
                    }
                }
                k = k + 1;
            }
            proof {
                assert(mv[i as int] == self.mime@[i as int]@);
            }
            if found {
                proof {
                    assert(mv[i as int].contains('/')) by {
                        let q = choose|q: int| 0 <= q < n && s@[q] == '/';
                        assert(mv[i as int][q] == '/');
                    }
                }
                return self.mime[i].clone();
            }
            proof {
                if mv[i as int].contains('/') {
                    let q = choose|q: int| 0 <= q < mv[i as int].len() && mv[i as int][q] == '/';
                    assert(s@[q] == '/');
                }
            }
            i = i + 1;
        }
        if self.mime.len() > 0 {
            proof {
                if exists|j: int| 0 <= j < mv.len() && (#[trigger] mv[j]).contains('/') {
                    let j = choose|j: int| 0 <= j < mv.len() && (#[trigger] mv[j]).contains('/');
                }
            }
            return self.mime[0].clone();
        }
        let mut out = String::new();
        out.append("N/A");
        proof {
            assert(out@ =~= "N/A"@);
        }
        out
    }

    /// Render a bounded preview of the entry's content.  For text the
    /// preview is the collapsed, width-bounded rendering of the text
    /// itself; for data it renders a description of the bytes.
    pub fn preview(&self, max_width: usize) -> (r: String)
        ensures
            self@.body is Text ==> r@ == spec_preview(self@.body->Text_0, max_width as nat),
            exists|described: Seq<char>| r@ == spec_preview(described, max_width as nat),
    {
        match &self.body {
            ClipBody::Text(t) => render_preview(t.as_str(), max_width),
            ClipBody::Data(d) => {
                let described = crate::mime::preview_data(d, &self.mime);
                render_preview(described.as_str(), max_width)
            },
        }
    }
}

/// The candidate list a data entry takes from its hint's class.
pub open spec fn spec_data_mimes(m: Seq<char>) -> Seq<Seq<char>> {
    if crate::mime::is_text_mime(m) {
        with_hint(base_text_mimes(), Some(m))
    } else if crate::mime::is_image_mime(m) {
        with_hint(base_image_mimes(), Some(m))
    } else {
        seq![m]
    }
}

/// A rendered view of one stored record: its index, a bounded preview of
/// its content, and the moment it was last used.
#[derive(Debug, Clone)]
pub struct Preview {
    pub index: usize,
    pub preview: String,
    pub last_used: u64,
}

/// Mathematical value of a preview row.
#[verifier::ext_equal]
pub struct PreviewV {
    pub index: nat,
    pub preview: Seq<char>,
    pub last_used: u64,
}

impl View for Preview {
    type V = PreviewV;

    open spec fn view(&self) -> PreviewV {
        PreviewV { index: self.index as nat, preview: self.preview@, last_used: self.last_used }
    }
}

} // verus!
