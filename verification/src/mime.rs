//! MIME type checks and guesses for clipboard entries.
use vstd::prelude::*;

verus! {

/// Compare two string slices character by character.
pub fn str_eq_str(a: &str, b: &str) -> (r: bool)
    ensures
        r == (a@ == b@),
{
    let n = a.unicode_len();
    if n != b.unicode_len() {
        return false;
    }
    let mut k: usize = 0;
    while k < n
        invariant
            k <= n,
            n == a@.len(),
            n == b@.len(),
            forall|j: int| 0 <= j < k ==> a@[j] == b@[j],
        decreases n - k,
    {
        if a.get_char(k) != b.get_char(k) {
            return false;
        }
        k = k + 1;
    }
    proof {
        assert(a@ =~= b@);
    }
    true
}

/// Whether one string starts with another.
pub open spec fn has_prefix(s: Seq<char>, p: Seq<char>) -> bool {
    s.len() >= p.len() && s.subrange(0, p.len() as int) == p
}

/// Check whether a string starts with a prefix.
pub fn str_has_prefix(s: &str, p: &str) -> (r: bool)
    ensures
        r == has_prefix(s@, p@),
{
    let n = p.unicode_len();
    if s.unicode_len() < n {
        return false;
    }
    let mut k: usize = 0;
    while k < n
        invariant
            k <= n,
            n == p@.len(),
            n <= s@.len(),
            forall|j: int| 0 <= j < k ==> s@[j] == p@[j],
        decreases n - k,
    {
        if s.get_char(k) != p.get_char(k) {
            proof {
                if has_prefix(s@, p@) {
                    assert(s@.subrange(0, n as int)[k as int] == s@[k as int]);
                }
            }
            return false;
        }
        k = k + 1;
    }
    proof {
        assert(s@.subrange(0, n as int) =~= p@);
    }
    true
}

/// A MIME type that names plain text: one of the textual targets, or
/// anything under `text/`.
pub open spec fn is_text_mime(m: Seq<char>) -> bool {
    m == "TEXT"@ || m == "STRING"@ || m == "UTF8_STRING"@ || has_prefix(m, "text/"@)
}

/// A MIME type that names an image: anything under `image/`.
pub open spec fn is_image_mime(m: Seq<char>) -> bool {
    has_prefix(m, "image/"@)
}

/// Check whether a MIME type names plain text.
pub fn is_text(mime_type: &str) -> (r: bool)
    ensures
        r == is_text_mime(mime_type@),
{
    str_eq_str(mime_type, "TEXT") || str_eq_str(mime_type, "STRING") || str_eq_str(
        mime_type,
        "UTF8_STRING",
    ) || str_has_prefix(mime_type, "text/")
}

/// Check whether a MIME type names an image.
pub fn is_image(mime_type: &str) -> (r: bool)
    ensures
        r == is_image_mime(mime_type@),
{
    str_has_prefix(mime_type, "image/")
}

#[verifier::external_type_specification]
#[verifier::external_body]
pub struct ExSharedMimeInfo(xdg_mime::SharedMimeInfo);

/// Relies on xdg_mime's `SharedMimeInfo::new` and
/// `new_for_directory`: loads the shared MIME database.  `new` reads
/// the standard data directories but aborts when no user data
/// directory resolves, so that condition is checked first — through the
/// xdg crate, which resolves the same variables without aborting — and
/// the database is then built from the standard system path alone.
/// What it holds depends on the machine, so nothing is assumed of it.
#[verifier::external_body]
pub fn mime_db() -> xdg_mime::SharedMimeInfo {
    if xdg::BaseDirectories::new().get_data_home().is_some() {
        xdg_mime::SharedMimeInfo::new()
    } else {
        xdg_mime::SharedMimeInfo::new_for_directory("/usr/share")
    }
}

/// Relies on `SharedMimeInfo::get_mime_type_for_data`: the database's
/// best guess for the bytes, rendered as a MIME type string.  The answer
/// depends on the database on disk, so nothing is assumed of it.
#[verifier::external_body]
pub fn db_guess(db: &xdg_mime::SharedMimeInfo, data: &[u8]) -> Option<String> {
    db.get_mime_type_for_data(data).map(|(m, _)| m.to_string())
}

/// Relies on xdg_mime's path-based guess builder: the database's best
/// guess for a file name, rendered as a MIME type string.  The answer
/// depends on the database and the file system, so nothing is assumed.
#[verifier::external_body]
pub fn guess_mime_path(db: &xdg_mime::SharedMimeInfo, path: &str) -> Option<String> {
    let guess = db.guess_mime_type().path(path).guess();
    Some(guess.mime_type().to_string())
}

/// Relies on `String::from_utf8`: succeeds exactly on valid UTF-8 and
/// decodes it.
#[verifier::external_body]
pub fn bytes_to_string(b: &Vec<u8>) -> (r: Option<String>)
    ensures
        match r {
            Some(s) => vstd::utf8::valid_utf8(b@) && s@ == vstd::utf8::decode_utf8(b@),
            None => !vstd::utf8::valid_utf8(b@),
        },
{
    String::from_utf8(b.clone()).ok()
}

/// Every byte is plain ASCII.
pub open spec fn all_ascii(b: Seq<u8>) -> bool {
    forall|i: int| 0 <= i < b.len() ==> (#[trigger] b[i]) < 128
}

/// The type assumed for bytes no database recognises: text when they
/// are plain ASCII, unknown otherwise.
pub fn fallback_mime(data: &[u8]) -> (r: String)
    ensures
        all_ascii(data@) ==> r@ == "text/plain"@,
        !all_ascii(data@) ==> r@ == "unknown"@,
{
    let mut i: usize = 0;
    let mut ascii = true;
    while i < data.len()
        invariant
            i <= data@.len(),
            ascii == all_ascii(data@.subrange(0, i as int)),
        decreases data@.len() - i,
    {
        let ghost pre = data@.subrange(0, i as int);
        if data[i] >= 128 {
            ascii = false;
        }
        proof {
            assert(data@.subrange(0, i + 1).drop_last() =~= pre);
            assert(data@.subrange(0, i + 1).last() == data@[i as int]);
            assert forall|j: int|
                0 <= j < i + 1 implies (ascii ==> (#[trigger] data@.subrange(0, i + 1)[j])
                < 128) by {
                if j < i {
                    assert(data@.subrange(0, i + 1)[j] == pre[j]);
                }
            }
            if !ascii && all_ascii(data@.subrange(0, i + 1)) {
                if data@[i as int] >= 128 {
                    assert(data@.subrange(0, i + 1)[i as int] == data@[i as int]);
                } else {
                    assert(forall|j: int|
                        0 <= j < i ==> (#[trigger] pre[j]) == data@.subrange(0, i + 1)[j]);
                }
            }
        }
        i = i + 1;
    }
    proof {
        assert(data@.subrange(0, data@.len() as int) =~= data@);
    }
    if ascii {
        let mut out = String::new();
        out.append("text/plain");
        proof {
            assert(out@ =~= "text/plain"@);
        }
        out
    } else {
        let mut out = String::new();
        out.append("unknown");
        proof {
            assert(out@ =~= "unknown"@);
        }
        out
    }
}

/// Guess the MIME type of raw bytes: the system database's answer when
/// it has one, the ASCII fallback otherwise.
pub fn guess_mime_data(data: &[u8]) -> (r: String) {
    let db = mime_db();
    match db_guess(&db, data) {
        Some(m) => m,
        None => fallback_mime(data),
    }
}

/// Describe raw bytes for a preview: the database's name for them, the
/// decoded text when a hint says they are text, or a fixed marker.
pub fn preview_data(data: &Vec<u8>, hints: &Vec<String>) -> (r: String)
{
    let db = mime_db();
    match db_guess(&db, data.as_slice()) {
        Some(m) => {
            let mut out = String::new();
            out.append("binary data [");
            out.append(m.as_str());
            out.append("]");
            out
        },
        None => {
            let mut any_text = false;
            let mut i: usize = 0;
            while i < hints.len()
                invariant
                    i <= hints.len(),
                decreases hints.len() - i,
            {
                if is_text(hints[i].as_str()) {
                    any_text = true;
                }
                i = i + 1;
            }
            if any_text {
                match bytes_to_string(data) {
                    Some(s) => s,
                    None => {
                        let mut out = String::new();
                        out.append("unknown data");
                        out
                    },
                }
            } else {
                let mut out = String::new();
                out.append("unknown data");
                out
            }
        },
    }
}

} // verus!
