//! Which files the editor opens: image files, told apart by the extension of
//! their file name.

use vstd::prelude::*;
use vstd::std_specs::iter::IteratorSpec;

verus! {

/// A file the user picked, with the label the UI shows for it.
pub struct ImageSelection {
    pub path: String,
    pub label: String,
}

/// The file extensions the editor opens, in lower case.
pub open spec fn spec_image_extensions() -> Seq<Seq<char>> {
    seq![
        seq!['a', 'v', 'i', 'f'],
        seq!['b', 'm', 'p'],
        seq!['g', 'i', 'f'],
        seq!['h', 'e', 'i', 'c'],
        seq!['h', 'e', 'i', 'f'],
        seq!['i', 'c', 'o'],
        seq!['j', 'p', 'e', 'g'],
        seq!['j', 'p', 'g'],
        seq!['p', 'n', 'g'],
        seq!['t', 'i', 'f'],
        seq!['t', 'i', 'f', 'f'],
        seq!['w', 'e', 'b', 'p'],
    ]
}

/// The file extensions the editor opens, in lower case.
pub fn image_extensions() -> (r: Vec<&'static str>)
    ensures
        r@.len() == spec_image_extensions().len(),
        forall|i: int| 0 <= i < r@.len() ==> #[trigger] r@[i]@ == spec_image_extensions()[i],
{
    proof {
        reveal_strlit("avif");
        reveal_strlit("bmp");
        reveal_strlit("gif");
        reveal_strlit("heic");
        reveal_strlit("heif");
        reveal_strlit("ico");
        reveal_strlit("jpeg");
        reveal_strlit("jpg");
        reveal_strlit("png");
        reveal_strlit("tif");
        reveal_strlit("tiff");
        reveal_strlit("webp");
    }
    let r = vec!["avif", "bmp", "gif", "heic", "heif", "ico", "jpeg", "jpg", "png", "tif", "tiff", "webp"];
    assert(r@[0]@ =~= spec_image_extensions()[0]);
    assert(r@[1]@ =~= spec_image_extensions()[1]);
    assert(r@[2]@ =~= spec_image_extensions()[2]);
    assert(r@[3]@ =~= spec_image_extensions()[3]);
    assert(r@[4]@ =~= spec_image_extensions()[4]);
    assert(r@[5]@ =~= spec_image_extensions()[5]);
    assert(r@[6]@ =~= spec_image_extensions()[6]);
    assert(r@[7]@ =~= spec_image_extensions()[7]);
    assert(r@[8]@ =~= spec_image_extensions()[8]);
    assert(r@[9]@ =~= spec_image_extensions()[9]);
    assert(r@[10]@ =~= spec_image_extensions()[10]);
    assert(r@[11]@ =~= spec_image_extensions()[11]);
    r
}

/// ASCII lower case of one character; other characters are kept.
pub open spec fn ascii_lower(c: char) -> char {
    if 'A' <= c <= 'Z' {
        ((c as u32) + 32) as char
    } else {
        c
    }
}

pub open spec fn ascii_lowercase(s: Seq<char>) -> Seq<char> {
    Seq::new(s.len(), |i: int| ascii_lower(s[i]))
}

/// The index of the last `.` in `name`, or -1.
pub open spec fn last_dot(name: Seq<char>, end: int) -> int
    decreases end,
{
    if end <= 0 {
        -1
    } else if name[end - 1] == '.' {
        end - 1
    } else {
        last_dot(name, end - 1)
    }
}

/// The extension of a file name, as `std::path::Path::extension` documents it:
/// none without a `.` after the first character, else what follows the last `.`.
pub open spec fn extension_of(name: Seq<char>) -> Option<Seq<char>> {
    let d = last_dot(name, name.len() as int);
    if d <= 0 {
        None
    } else {
        Some(name.skip(d + 1))
    }
}

proof fn lemma_last_dot_skip(name: Seq<char>, j: int, end: int)
    requires
        0 <= j <= end <= name.len(),
        forall|k: int| j <= k < end ==> name[k] != '.',
    ensures
        last_dot(name, end) == last_dot(name, j),
    decreases end - j,
{
    if end > j {
        lemma_last_dot_skip(name, j, end - 1);
    }
}

/// The extension of a file name is the text after its last `.`: a name made
/// of a non-empty stem (dots allowed), a `.` and a text `x` without `.` has the
/// extension `x`, and is an image file name exactly when `x` is an image
/// extension in some ASCII case. A name without `.`, or a `.` followed by a
/// text without `.` (a hidden file), has no extension.
pub proof fn lemma_extension_after_last_dot(stem: Seq<char>, x: Seq<char>)
    requires
        !x.contains('.'),
    ensures
        stem.len() > 0 ==> extension_of(stem + seq!['.'] + x) == Some(x),
        stem.len() > 0 ==> is_image_file_name(Some(stem + seq!['.'] + x)) == spec_image_extensions().contains(
            ascii_lowercase(x),
        ),
        extension_of(x) is None,
        extension_of(seq!['.'] + x) is None,
{
    let name = stem + seq!['.'] + x;
    let j: int = stem.len() as int + 1;
    assert forall|k: int| j <= k < name.len() implies name[k] != '.' by {
        assert(name[k] == x[k - j]);
    }
    lemma_last_dot_skip(name, j, name.len() as int);
    assert(name[j - 1] == '.');
    assert(last_dot(name, j) == j - 1);
    if stem.len() > 0 {
        assert(name.skip(j) =~= x);
    }
    assert forall|k: int| 0 <= k < x.len() implies x[k] != '.' by {
        if x[k] == '.' {
            assert(x.contains('.'));
        }
    }
    lemma_last_dot_skip(x, 0, x.len() as int);
    let hidden = seq!['.'] + x;
    assert forall|k: int| 1 <= k < hidden.len() implies hidden[k] != '.' by {
        assert(hidden[k] == x[k - 1]);
    }
    lemma_last_dot_skip(hidden, 1, hidden.len() as int);
    assert(last_dot(hidden, 1) == 0);
}

/// A file name with one of the image extensions, in any ASCII case.
pub open spec fn is_image_file_name(name: Option<Seq<char>>) -> bool {
    match name {
        None => false,
        Some(n) => match extension_of(n) {
            None => false,
            Some(e) => spec_image_extensions().contains(ascii_lowercase(e)),
        },
    }
}

/// `s` occurs in `t` as a run of consecutive characters.
pub open spec fn is_infix_of(s: Seq<char>, t: Seq<char>) -> bool {
    exists|i: int| 0 <= i && i + s.len() <= t.len() && #[trigger] t.subrange(i, i + s.len()) == s
}

/// A run of the path's characters, as any component of a path is.
pub open spec fn is_name_in(n: Seq<char>, path: Seq<char>) -> bool {
    &&& n.len() > 0
    &&& is_infix_of(n, path)
}

/// A path that every platform reads alike: no `\`, no `:` and no leading `//`,
/// so it has no prefix and `/` is its only separator.
pub open spec fn is_plain_path(s: Seq<char>) -> bool {
    &&& !s.contains('\\')
    &&& !s.contains(':')
    &&& !(s.len() >= 2 && s[0] == '/' && s[1] == '/')
}

/// The index of the last `/` in `s` before `end`, or -1.
pub open spec fn last_slash(s: Seq<char>, end: int) -> int
    decreases end,
{
    if end <= 0 {
        -1
    } else if s[end - 1] == '/' {
        end - 1
    } else {
        last_slash(s, end - 1)
    }
}

/// The texts between the `/`s of `s`, in order (`s` itself when it has none).
pub open spec fn segments(s: Seq<char>) -> Seq<Seq<char>>
    decreases s.len(),
{
    let k = last_slash(s, s.len() as int);
    if k < 0 || k >= s.len() {
        seq![s]
    } else {
        segments(s.take(k)).push(s.skip(k + 1))
    }
}

/// A segment that names something: neither empty nor `.`.
pub open spec fn is_named_segment(x: Seq<char>) -> bool {
    x.len() > 0 && x != seq!['.']
}

/// The components of a plain path, as `std::path::Path::components` documents
/// them: `/` for a root, `.` for a leading `.` segment of a path without a root,
/// then the segments other than empty ones and `.` (repeated and trailing `/`
/// and inner `.` are dropped; `..` is kept).
pub open spec fn plain_components(s: Seq<char>) -> Seq<Seq<char>> {
    let root: Seq<Seq<char>> = if s.len() > 0 && s[0] == '/' {
        seq![seq!['/']]
    } else {
        Seq::empty()
    };
    let cur: Seq<Seq<char>> = if s == seq!['.'] || (s.len() >= 2 && s[0] == '.' && s[1] == '/') {
        seq![seq!['.']]
    } else {
        Seq::empty()
    };
    root + cur + segments(s).filter(|x: Seq<char>| is_named_segment(x))
}

/// The file name of a plain path, as `std::path::Path::file_name` documents
/// it: its last component when that is a name (not the root, not `.` and not
/// `..`), else none. So `foo.txt/.` and `foo.txt//` name `foo.txt`, while `/`,
/// `.` and a path ending in `..` name nothing.
pub open spec fn plain_file_name(s: Seq<char>) -> Option<Seq<char>> {
    let c = plain_components(s);
    if c.len() > 0 && c.last() != seq!['/'] && c.last() != seq!['.'] && c.last() != seq!['.', '.'] {
        Some(c.last())
    } else {
        None
    }
}

/// `std::path::Path::file_name` of the path, as text. Claimed of it: a name it
/// gives is a non-empty run of the path's characters, and on a plain path
/// (see `is_plain_path`) it gives `plain_file_name`, on every platform, since
/// `/` is a separator on each. Paths with a `\`, a `:` or a leading `//` are
/// split by the platform's own rules (separators, prefixes), which are not
/// stated.
#[verifier::external_body]
fn path_file_name(path: &str) -> (r: Option<&str>)
    ensures
        r matches Some(n) ==> is_name_in(n@, path@),
        is_plain_path(path@) ==> (r is Some <==> plain_file_name(path@) is Some),
        is_plain_path(path@) && r is Some ==> r.unwrap()@ == plain_file_name(path@).unwrap(),
{
    match std::path::Path::new(path).file_name() {
        Some(name) => name.to_str(),
        None => None,
    }
}

/// The characters of a string.
pub(crate) fn chars_of(s: &str) -> (r: Vec<char>)
    ensures
        r@ == s@,
{
    broadcast use vstd::string::group_string_axioms;

    let mut it = s.chars();
    let mut r: Vec<char> = Vec::new();
    loop
        invariant
            r@ + it.remaining() == s@,
            it.obeys_prophetic_iter_laws(),
            it.decrease() is Some,
        ensures
            r@ == s@,
        decreases it.decrease()->0,
    {
        match it.next() {
            Some(c) => {
                r.push(c);
                assert(r@ + it.remaining() =~= s@);
            },
            None => {
                assert(r@ =~= s@);
                break;
            },
        }
    }
    r
}

fn lower_char(c: char) -> (r: char)
    ensures
        r == ascii_lower(c),
{
    if 'A' <= c && c <= 'Z' {
        let b = (c as u32 + 32) as u8;
        b as char
    } else {
        c
    }
}

fn same_chars(a: &Vec<char>, b: &Vec<char>) -> (r: bool)
    ensures
        r == (a@ == b@),
{
    if a.len() != b.len() {
        return false;
    }
    let mut i: usize = 0;
    while i < a.len()
        invariant
            i <= a@.len(),
            a@.len() == b@.len(),
            forall|j: int| 0 <= j < i ==> a@[j] == b@[j],
        decreases a@.len() - i,
    {
        if a[i] != b[i] {
            return false;
        }
        i += 1;
    }
    assert(a@ =~= b@);
    true
}

/// The extension is one of the image extensions, in any ASCII case.
pub fn is_supported_extension(ext: &str) -> (r: bool)
    ensures
        r == spec_image_extensions().contains(ascii_lowercase(ext@)),
{
    let chars = chars_of(ext);
    is_supported_extension_chars(&chars)
}

/// The extension of a file name given as characters.
fn extension_chars(name: &Vec<char>) -> (r: Option<Vec<char>>)
    ensures
        match extension_of(name@) {
            None => r is None,
            Some(e) => r matches Some(v) && v@ == e,
        },
{
    let n = name.len();
    let mut end = n;
    while end > 0 && name[end - 1] != '.'
        invariant
            end <= n,
            n == name@.len(),
            last_dot(name@, end as int) == last_dot(name@, n as int),
        decreases end,
    {
        end -= 1;
    }
    if end <= 1 {
        return None;
    }
    let d = end - 1;
    let mut ext: Vec<char> = Vec::new();
    let mut i = d + 1;
    while i < n
        invariant
            d + 1 <= i <= n,
            n == name@.len(),
            ext@ == name@.subrange(d + 1, i as int),
        decreases n - i,
    {
        ext.push(name[i]);
        i += 1;
        assert(ext@ =~= name@.subrange(d + 1, i as int));
    }
    assert(ext@ =~= name@.skip(d + 1));
    Some(ext)
}

fn is_supported_extension_chars(ext: &Vec<char>) -> (r: bool)
    ensures
        r == spec_image_extensions().contains(ascii_lowercase(ext@)),
{
    let mut lower: Vec<char> = Vec::with_capacity(ext.len());
    let mut i: usize = 0;
    while i < ext.len()
        invariant
            i <= ext@.len(),
            lower@ == ascii_lowercase(ext@).take(i as int),
        decreases ext@.len() - i,
    {
        lower.push(lower_char(ext[i]));
        i += 1;
        assert(lower@ =~= ascii_lowercase(ext@).take(i as int));
    }
    assert(lower@ =~= ascii_lowercase(ext@));
    let known = image_extensions();
    let mut k: usize = 0;
    while k < known.len()
        invariant
            k <= known@.len(),
            known@.len() == spec_image_extensions().len(),
            forall|j: int| 0 <= j < known@.len() ==> #[trigger] known@[j]@ == spec_image_extensions()[j],
            lower@ == ascii_lowercase(ext@),
            forall|j: int| 0 <= j < k ==> spec_image_extensions()[j] != lower@,
        decreases known@.len() - k,
    {
        let candidate = chars_of(known[k]);
        if same_chars(&candidate, &lower) {
            return true;
        }
        k += 1;
    }
    false
}

/// Whether a file name (as `Path::file_name` gives it) names an image file.
pub fn is_supported_file_name(name: Option<&str>) -> (r: bool)
    ensures
        r == is_image_file_name(
            match name {
                Some(n) => Some(n@),
                None => None,
            },
        ),
{
    match name {
        None => false,
        Some(n) => {
            let chars = chars_of(n);
            match extension_chars(&chars) {
                None => false,
                Some(ext) => is_supported_extension_chars(&ext),
            }
        },
    }
}

/// A possible outcome of taking the file name of `path`.
pub open spec fn is_file_name_outcome(o: Option<Seq<char>>, path: Seq<char>) -> bool {
    &&& o matches Some(n) ==> is_name_in(n, path)
    &&& is_plain_path(path) ==> o == plain_file_name(path)
}

/// Whether the path names an image file: its file name has one of the image
/// extensions, in any ASCII case.
pub fn is_supported_image(path: &str) -> (r: bool)
    ensures
        exists|o: Option<Seq<char>>| #[trigger] is_file_name_outcome(o, path@) && r == is_image_file_name(o),
{
    let name = path_file_name(path);
    let r = is_supported_file_name(name);
    proof {
        let o = match name {
            Some(n) => Some(n@),
            None => None,
        };
        assert(is_file_name_outcome(o, path@));
    }
    r
}

/// The label of a file in the UI: its file name, or "Image" when it has none.
pub fn label_for_file_name(name: Option<&str>) -> (r: String)
    ensures
        r@ == match name {
            Some(n) => n@,
            None => seq!['I', 'm', 'a', 'g', 'e'],
        },
{
    match name {
        Some(n) => n.to_owned(),
        None => {
            proof {
                reveal_strlit("Image");
            }
            let r = "Image".to_owned();
            assert(r@ =~= seq!['I', 'm', 'a', 'g', 'e']);
            r
        },
    }
}

/// The label of a path in the UI: its file name, or "Image" when it has none.
pub fn label_for_path(path: &str) -> (r: String)
    ensures
        exists|o: Option<Seq<char>>|
            #[trigger] is_file_name_outcome(o, path@) && r@ == match o {
                Some(n) => n,
                None => seq!['I', 'm', 'a', 'g', 'e'],
            },
{
    let name = path_file_name(path);
    let r = label_for_file_name(name);
    proof {
        let o = match name {
            Some(n) => Some(n@),
            None => None,
        };
        assert(is_file_name_outcome(o, path@));
    }
    r
}

/// The selection for a path whose file name is `name`: none unless the name
/// has an image extension; else the path, labelled with the name.
pub fn selection_for_file_name(path: String, name: Option<&str>) -> (r: Option<ImageSelection>)
    ensures
        match r {
            None => !is_image_file_name(
                match name {
                    Some(n) => Some(n@),
                    None => None,
                },
            ),
            Some(s) => {
                &&& is_image_file_name(
                    match name {
                        Some(n) => Some(n@),
                        None => None,
                    },
                )
                &&& s.path@ == path@
                &&& name matches Some(n) && s.label@ == n@
            },
        },
{
    if !is_supported_file_name(name) {
        return None;
    }
    let label = label_for_file_name(name);
    Some(ImageSelection { path, label })
}

/// The selection for a picked path: none unless the path names an image file;
/// else the path, labelled with its file name.
pub fn selection_from_path(path: String) -> (r: Option<ImageSelection>)
    ensures
        exists|o: Option<Seq<char>>|
            #[trigger] is_file_name_outcome(o, path@) && match r {
                None => !is_image_file_name(o),
                Some(s) => is_image_file_name(o) && s.path@ == path@ && o == Some(s.label@),
            },
{
    let name = path_file_name(path.as_str());
    let r = selection_for_file_name(path.clone(), name);
    proof {
        let o = match name {
            Some(n) => Some(n@),
            None => None,
        };
        assert(is_file_name_outcome(o, path@));
    }
    r
}

} // verus!
