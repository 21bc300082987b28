use vstd::prelude::*;
use vstd::string::StringSliceAdditionalSpecFns;
use vstd::utf8::{decode_utf8, encode_utf8, valid_utf8};
use crate::paths::{is_same_path, join, join_spec, same_path};

verus! {

/// The directory that marks a project set up for a development container.
pub const DEVCONTAINER_DIR: &'static str = ".devcontainer";

/// The configuration file inside the marker directory.
pub const CONFIG_FILE: &'static str = "devcontainer.json";

/// What `String::from_utf8_lossy` makes of some bytes.
pub uninterp spec fn lossy_of(b: Seq<u8>) -> Seq<char>;

/// What `Debug` prints for a `std::path::Path` made from some text.
pub uninterp spec fn path_debug_of(s: Seq<char>) -> Seq<char>;

/// A character that `Debug` writes as it is inside the quotes: printable
/// ASCII (space included) other than `"`, `\` and `'`.
pub open spec fn is_plain_char(c: char) -> bool {
    ' ' <= c && c <= '~' && c != '"' && c != '\\' && c != '\''
}

pub open spec fn is_plain_text(s: Seq<char>) -> bool {
    forall|i: int| 0 <= i < s.len() ==> is_plain_char(#[trigger] s[i])
}

/// Relies on `String::from_utf8_lossy`: valid UTF-8 is decoded as it is,
/// and anything else depends on the bytes alone.
#[verifier::external_body]
pub(crate) fn lossy_text(b: &[u8]) -> (r: String)
    ensures
        r@ == lossy_of(b@),
        valid_utf8(b@) ==> r@ == decode_utf8(b@),
{
    String::from_utf8_lossy(b).into_owned()
}

/// Relies on `Debug` for `std::path::Path`: the text in double quotes, with
/// printable ASCII other than `"`, `\` and `'` left as it is.
#[verifier::external_body]
pub(crate) fn path_debug(s: &str) -> (r: String)
    ensures
        r@ == path_debug_of(s@),
        is_plain_text(s@) ==> r@ == seq!['"'] + s@ + seq!['"'],
{
    format!("{:?}", std::path::Path::new(s))
}

/// Where the default configuration file of the project `root` lies.
pub open spec fn default_config(root: Seq<u8>) -> Seq<u8> {
    join_spec(join_spec(root, DEVCONTAINER_DIR.spec_bytes()), CONFIG_FILE.spec_bytes())
}

/// The identifier of a non-default configuration file: JSON-like text whose
/// field order, fields and lack of spaces the editor relies on.
pub open spec fn complex_id(root: Seq<char>, chosen: Seq<char>) -> Seq<char> {
    "{\"hostPath\":"@ + path_debug_of(root)
        + ",\"localDocker\":false,\"settings\":{\"context\":\"desktop-linux\"},\"configFile\":{\"$mid\":1,\"fsPath\":"@
        + path_debug_of(chosen) + ",\"external\":\"file://"@ + chosen + "\",\"path\":"@
        + path_debug_of(chosen) + ",\"scheme\":\"file\"}}"@
}

/// Whether `t` stands in `s` from index `i` on.
pub open spec fn occurs_at(s: Seq<char>, t: Seq<char>, i: int) -> bool {
    0 <= i && i + t.len() <= s.len() && s.subrange(i, i + t.len()) == t
}

pub open spec fn container_id_spec(root: Seq<char>, chosen: Seq<char>) -> Seq<char> {
    if same_path(encode_utf8(chosen), default_config(encode_utf8(root))) {
        root
    } else {
        complex_id(root, chosen)
    }
}

/// The identifier of the container for the project `root` and the chosen
/// configuration file: the root itself for the default file, else the
/// JSON-like description of `complex_id`.
pub fn container_id(root: &str, chosen: &str) -> (r: String)
    ensures
        r@ == container_id_spec(root@, chosen@),
        same_path(encode_utf8(chosen@), default_config(encode_utf8(root@))) ==> r@ == root@,
        !same_path(encode_utf8(chosen@), default_config(encode_utf8(root@))) ==> r@.len() > 0 && r@[0]
            == '{',
        !same_path(encode_utf8(chosen@), default_config(encode_utf8(root@))) && is_plain_text(chosen@)
            ==> exists|i: int, j: int, k: int|
            i < j < k && occurs_at(r@, chosen@, i) && occurs_at(r@, chosen@, j) && occurs_at(
                r@,
                chosen@,
                k,
            ),
{
    let dc = join(root.as_bytes(), DEVCONTAINER_DIR.as_bytes());
    let default_file = join(dc.as_slice(), CONFIG_FILE.as_bytes());
    if is_same_path(chosen.as_bytes(), default_file.as_slice()) {
        return root.to_owned();
    }
    let root_dbg = path_debug(root);
    let chosen_dbg = path_debug(chosen);
    let mut r = String::new();
    r.append("{\"hostPath\":");
    r.append(root_dbg.as_str());
    r.append(
        ",\"localDocker\":false,\"settings\":{\"context\":\"desktop-linux\"},\"configFile\":{\"$mid\":1,\"fsPath\":",
    );
    r.append(chosen_dbg.as_str());
    r.append(",\"external\":\"file://");
    r.append(chosen);
    r.append("\",\"path\":");
    r.append(chosen_dbg.as_str());
    r.append(",\"scheme\":\"file\"}}");
    proof {
        reveal_strlit("{\"hostPath\":");
        let a = "{\"hostPath\":"@;
        let b = ",\"localDocker\":false,\"settings\":{\"context\":\"desktop-linux\"},\"configFile\":{\"$mid\":1,\"fsPath\":"@;
        let e = ",\"external\":\"file://"@;
        let f = "\",\"path\":"@;
        let g = ",\"scheme\":\"file\"}}"@;
        let c = chosen@;
        let dr = root_dbg@;
        let dc = chosen_dbg@;
        assert(r@ =~= a + dr + b + dc + e + c + f + dc + g);
        assert(r@[0] == a[0]);
        if is_plain_text(c) {
            let q = seq!['"'];
            assert(dc == q + c + q);
            let i: int = (a.len() + dr.len() + b.len() + 1) as int;
            let j: int = (a.len() + dr.len() + b.len() + dc.len() + e.len()) as int;
            let k: int = j + c.len() + f.len() + 1;
            assert(r@ =~= (a + dr + b + q) + c + (q + e) + c + (f + q) + c + (q + g));
            assert(r@.subrange(i, i + c.len()) =~= c);
            assert(r@.subrange(j, j + c.len()) =~= c);
            assert(r@.subrange(k, k + c.len()) =~= c);
            assert(occurs_at(r@, c, i) && occurs_at(r@, c, j) && occurs_at(r@, c, k));
        }
    }
    r
}

} // verus!
