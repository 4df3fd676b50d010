//! Which paths name HTML files.
use vstd::prelude::*;
use vstd::string::StringSliceAdditionalSpecFns;
use vstd::utf8::encode_utf8;

use crate::text::{
    ascii_case_eq, eq_ignore_ascii_case, lemma_split_on_ends_empty, lemma_split_on_extend_last,
    split_on,
};

verus! {

/// The last of `segments` that is neither empty nor `.`.
pub open spec fn last_named_segment(segments: Seq<Seq<char>>) -> Option<Seq<char>>
    decreases segments.len(),
{
    if segments.len() == 0 {
        None
    } else if segments.last().len() == 0 || segments.last() == "."@ {
        last_named_segment(segments.drop_last())
    } else {
        Some(segments.last())
    }
}

/// The file name of a Unix path, as `Path::file_name` documents it: its last component, with
/// repeated separators and `.` components ignored; none for a path that ends in `..` or has no
/// such component.
pub open spec fn file_name_of(path: Seq<char>) -> Option<Seq<char>> {
    match last_named_segment(split_on(path, '/')) {
        Some(name) => if name == ".."@ {
            None
        } else {
            Some(name)
        },
        None => None,
    }
}

/// The index of the last `c` in `s`, if any.
pub open spec fn last_index_of(s: Seq<char>, c: char) -> Option<int>
    decreases s.len(),
{
    if s.len() == 0 {
        None
    } else if s.last() == c {
        Some(s.len() - 1)
    } else {
        last_index_of(s.drop_last(), c)
    }
}

/// The extension of a Unix path, as `Path::extension` documents it: what follows the last `.`
/// of its file name; none without a file name, without a `.`, or when the only `.` begins the
/// name.
pub open spec fn extension_of(path: Seq<char>) -> Option<Seq<char>> {
    match file_name_of(path) {
        Some(name) => match last_index_of(name, '.') {
            Some(i) => if i > 0 {
                Some(name.skip(i + 1))
            } else {
                None
            },
            None => None,
        },
        None => None,
    }
}

/// Whether `path` has the extension `html` or `htm`, in any ASCII case.
pub open spec fn names_html(path: Seq<char>) -> bool {
    match extension_of(path) {
        Some(e) => ascii_case_eq(encode_utf8(e), "html".spec_bytes()) || ascii_case_eq(
            encode_utf8(e),
            "htm".spec_bytes(),
        ),
        None => false,
    }
}

/// The extension of `path` by `std::path::Path::extension`, as `extension_of` states the
/// documented rules for Unix paths.
#[verifier::external_body]
fn path_extension(path: &str) -> (r: Option<String>)
    ensures
        match r {
            Some(e) => extension_of(path@) == Some(e@),
            None => extension_of(path@) is None,
        },
{
    std::path::Path::new(path).extension().and_then(|e| e.to_str()).map(|e| e.to_owned())
}

/// Whether `path` names an HTML file: its extension is `html` or `htm`, in any case.
pub fn is_html(path: &str) -> (r: bool)
    ensures
        r == names_html(path@),
{
    match path_extension(path) {
        Some(e) => eq_ignore_ascii_case(e.as_str().as_bytes(), "html".as_bytes())
            || eq_ignore_ascii_case(e.as_str().as_bytes(), "htm".as_bytes()),
        None => false,
    }
}

/// The last `.` of a name whose part after a `.` holds none is that `.`.
proof fn lemma_last_dot(stem: Seq<char>, ext: Seq<char>)
    requires
        forall|i: int| 0 <= i < ext.len() ==> ext[i] != '.',
    ensures
        last_index_of(stem + seq!['.'] + ext, '.') == Some(stem.len() as int),
    decreases ext.len(),
{
    let name = stem + seq!['.'] + ext;
    if ext.len() == 0 {
        assert(name.last() == '.');
    } else {
        assert(name.drop_last() =~= stem + seq!['.'] + ext.drop_last());
        lemma_last_dot(stem, ext.drop_last());
    }
}

/// A path in a directory (`dir` empty or ending in `/`) whose file name is a stem and an
/// extension, neither holding `/` or `.`, has that extension, and names an HTML file exactly
/// when the extension is `html` or `htm` in any ASCII case.
pub proof fn law_extension_of_file_name(dir: Seq<char>, stem: Seq<char>, ext: Seq<char>)
    requires
        dir.len() == 0 || dir.last() == '/',
        stem.len() > 0,
        forall|i: int| 0 <= i < stem.len() ==> stem[i] != '/' && stem[i] != '.',
        forall|i: int| 0 <= i < ext.len() ==> ext[i] != '/' && ext[i] != '.',
    ensures
        extension_of(dir + stem + seq!['.'] + ext) == Some(ext),
        names_html(dir + stem + seq!['.'] + ext) == (ascii_case_eq(
            encode_utf8(ext),
            "html".spec_bytes(),
        ) || ascii_case_eq(encode_utf8(ext), "htm".spec_bytes())),
{
    reveal_strlit(".");
    reveal_strlit("..");
    let name = stem + seq!['.'] + ext;
    assert forall|i: int| 0 <= i < name.len() implies name[i] != '/' by {
        if i < stem.len() {
            assert(name[i] == stem[i]);
        } else if i > stem.len() {
            assert(name[i] == ext[i - stem.len() - 1]);
        }
    }
    assert(dir + stem + seq!['.'] + ext =~= dir + name);
    lemma_split_on_ends_empty(dir, '/');
    lemma_split_on_extend_last(dir, name, '/');
    assert(Seq::<char>::empty() + name =~= name);
    let segments = split_on(dir + name, '/');
    assert(segments.last() == name);
    assert(name.len() > 0);
    assert(name != "."@) by {
        if name.len() == 1 {
            assert(name[0] == stem[0]);
        }
    }
    assert(name != ".."@) by {
        if name.len() == 2 {
            assert(name[0] == stem[0]);
        }
    }
    assert(last_named_segment(segments) == Some(name));
    lemma_last_dot(stem, ext);
    assert(name.skip(stem.len() + 1int) =~= ext);
}

} // verus!
