//! Image assets copied into the vault: which files are accepted and how the
//! copies are named.
use vstd::prelude::*;
use vstd::string::StringExecFns;

use crate::domain::{fresh_id, uuid_text};
use crate::error::SynapseError;

verus! {

/// The text a Unicode-aware lower-casing of `s` yields.
pub uninterp spec fn lowercase(s: Seq<char>) -> Seq<char>;

/// Text made only of ASCII characters.
pub open spec fn ascii_text(s: Seq<char>) -> bool {
    forall|i: int| 0 <= i < s.len() ==> (#[trigger] s[i] as int) < 128
}

/// An ASCII upper-case letter made lower-case; any other character as it is.
pub open spec fn ascii_lower_char(c: char) -> char {
    if 65 <= (c as int) <= 90 {
        ((c as int) + 32) as char
    } else {
        c
    }
}

/// ASCII text with its upper-case letters made lower-case.
pub open spec fn ascii_lowercase(s: Seq<char>) -> Seq<char> {
    s.map_values(|c: char| ascii_lower_char(c))
}

/// Lower-cases text.
///
/// Calls `str::to_lowercase`. The contract names the result (`lowercase`)
/// without stating Unicode's case mapping, except on ASCII text, where the
/// Unicode mapping is the ASCII one: `A`-`Z` become `a`-`z`, every other
/// character stays as it is.
#[verifier::external_body]
fn to_lowercase(s: &str) -> (r: String)
    ensures
        r@ == lowercase(s@),
        ascii_text(s@) ==> r@ == ascii_lowercase(s@),
{
    s.to_lowercase()
}

/// The image extensions accepted: real image formats only, since an accepted
/// file becomes part of the vault and is carried through backups and exports.
pub open spec fn allowed_image_extension(ext: Seq<char>) -> bool {
    ||| ext == "png"@
    ||| ext == "jpg"@
    ||| ext == "jpeg"@
    ||| ext == "gif"@
    ||| ext == "webp"@
    ||| ext == "bmp"@
    ||| ext == "svg"@
}

/// The message for an extension that is not accepted.
pub open spec fn unsupported_image_message(ext: Seq<char>) -> Seq<char> {
    "unsupported image type \"."@ + ext + "\" (allowed: png, jpg, jpeg, gif, webp, bmp, svg)"@
}

fn is_allowed(ext: &String) -> (ok: bool)
    ensures
        ok == allowed_image_extension(ext@),
{
    let e = ext.as_str();
    crate::text::str_eq(e, "png") || crate::text::str_eq(e, "jpg") || crate::text::str_eq(e, "jpeg")
        || crate::text::str_eq(e, "gif") || crate::text::str_eq(e, "webp")
        || crate::text::str_eq(e, "bmp") || crate::text::str_eq(e, "svg")
}

/// Checks the extension of a picked image file (empty when it has none):
/// its lower-cased form when it is an accepted image type, else
/// `InvalidOperation` with a message naming it and the accepted ones.
pub fn check_image_extension(extension: &str) -> (r: Result<String, SynapseError>)
    ensures
        ascii_text(extension@) ==> lowercase(extension@) == ascii_lowercase(extension@),
        allowed_image_extension(lowercase(extension@)) ==> (r matches Ok(ext) && ext@ == lowercase(
            extension@,
        )),
        !allowed_image_extension(lowercase(extension@)) ==> (r matches Err(
            SynapseError::InvalidOperation(msg),
        ) && msg@ == unsupported_image_message(lowercase(extension@))),
{
    let ext = to_lowercase(extension);
    if is_allowed(&ext) {
        Ok(ext)
    } else {
        let mut msg = "unsupported image type \".".to_owned();
        msg.append(ext.as_str());
        msg.append("\" (allowed: png, jpg, jpeg, gif, webp, bmp, svg)");
        Err(SynapseError::InvalidOperation(msg))
    }
}

/// A fresh file name for an imported asset: a random UUID as the stem, a
/// dot, and the extension.
pub fn asset_file_name(extension: &str) -> (name: String)
    ensures
        exists|stem: Seq<char>| uuid_text(stem) && name@ == stem + "."@ + extension@,
{
    let mut name = fresh_id();
    let ghost stem = name@;
    name.append(".");
    name.append(extension);
    proof {
        assert(name@ == stem + "."@ + extension@);
    }
    name
}

/// Where an asset file is found relative to the app data directory.
pub fn asset_relative_path(file_name: &str) -> (path: String)
    ensures
        path@ == "assets/"@ + file_name@,
{
    let mut path = "assets/".to_owned();
    path.append(file_name);
    path
}

/// Law: each of png, jpg, jpeg, gif, webp, bmp and svg, in any mix of upper
/// and lower case, is an accepted image type whose checked form is the
/// lower-case name; any other ASCII name is refused.
pub proof fn lemma_image_extensions_accepted(ext: Seq<char>)
    requires
        ascii_text(ext),
    ensures
        ({
            let low = ascii_lowercase(ext);
            allowed_image_extension(low) <==> (low == "png"@ || low == "jpg"@ || low == "jpeg"@
                || low == "gif"@ || low == "webp"@ || low == "bmp"@ || low == "svg"@)
        }),
        ext == "png"@ || ext == "jpg"@ || ext == "jpeg"@ || ext == "gif"@ || ext == "webp"@ || ext
            == "bmp"@ || ext == "svg"@ ==> ascii_lowercase(ext) == ext && allowed_image_extension(
            ext,
        ),
{
    reveal_strlit("png");
    reveal_strlit("jpg");
    reveal_strlit("jpeg");
    reveal_strlit("gif");
    reveal_strlit("webp");
    reveal_strlit("bmp");
    reveal_strlit("svg");
    if ext == "png"@ || ext == "jpg"@ || ext == "jpeg"@ || ext == "gif"@ || ext == "webp"@ || ext
        == "bmp"@ || ext == "svg"@ {
        assert(ascii_lowercase(ext) =~= ext);
    }
}

/// Law: the refusal message names the refused extension after a dot, in
/// quotes, and then lists the seven accepted ones.
pub proof fn lemma_unsupported_message(ext: Seq<char>)
    ensures
        unsupported_image_message(ext) == "unsupported image type \"."@ + ext + "\" (allowed: png, jpg, jpeg, gif, webp, bmp, svg)"@,
{
}

} // verus!
