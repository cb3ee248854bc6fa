//! Filesystem paths as text.
//!
//! The desktop resolves its worker resources (`python.exe`, scripts, model
//! directories) by walking up from one known path and back down again. A
//! path here is its text, and the platform's separator conventions are an
//! explicit [`PathStyle`]: Windows accepts both `\` and `/` and joins with
//! `\`; POSIX uses `/` only.
use vstd::prelude::*;
use crate::text::{
    chars_of, last_index, lemma_last_index, push_char, push_text, rfind_char, slice_chars, string_of,
    string_of_range,
};

verus! {

/// Which platform's separator rules a path follows.
#[derive(Clone, Copy, Debug, PartialEq, Eq, Structural)]
pub enum PathStyle {
    Windows,
    Posix,
}

pub open spec fn is_sep(style: PathStyle, c: char) -> bool {
    c == '/' || (style == PathStyle::Windows && c == '\\')
}

pub open spec fn main_sep(style: PathStyle) -> char {
    if style == PathStyle::Windows {
        '\\'
    } else {
        '/'
    }
}

pub fn separator_test(style: PathStyle, c: char) -> (res: bool)
    ensures
        res == is_sep(style, c),
{
    c == '/' || (matches!(style, PathStyle::Windows) && c == '\\')
}

/// `p` without trailing separators.
pub open spec fn strip_seps(style: PathStyle, p: Seq<char>) -> Seq<char>
    decreases p.len(),
{
    if p.len() > 0 && is_sep(style, p.last()) {
        strip_seps(style, p.drop_last())
    } else {
        p
    }
}

/// Position of the last separator in `p`.
pub open spec fn last_sep(style: PathStyle, p: Seq<char>) -> Option<int>
    decreases p.len(),
{
    if p.len() == 0 {
        None
    } else if is_sep(style, p.last()) {
        Some(p.len() - 1)
    } else {
        last_sep(style, p.drop_last())
    }
}

/// A Windows drive designator such as `C:` with nothing after it.
pub open spec fn is_drive(style: PathStyle, p: Seq<char>) -> bool {
    style == PathStyle::Windows && p.len() == 2 && p[1] == ':' && (('a' <= p[0] && p[0] <= 'z')
        || ('A' <= p[0] && p[0] <= 'Z'))
}

/// The path one component up (`Path::parent`): `None` for an empty path or a
/// bare root, `""` for a single relative component.
pub open spec fn parent_spec(style: PathStyle, p: Seq<char>) -> Option<Seq<char>> {
    let t = strip_seps(style, p);
    if t.len() == 0 || is_drive(style, t) {
        None
    } else {
        match last_sep(style, t) {
            None => Some(Seq::<char>::empty()),
            Some(i) => {
                let head = strip_seps(style, t.take(i));
                if head.len() == 0 || is_drive(style, head) {
                    Some(t.take(head.len() as int + 1))
                } else {
                    Some(head)
                }
            },
        }
    }
}

/// `base` joined with the relative component `name` (`Path::join`).
pub open spec fn join_spec(style: PathStyle, base: Seq<char>, name: Seq<char>) -> Seq<char> {
    if base.len() == 0 || is_sep(style, base.last()) || is_drive(style, base) {
        base + name
    } else {
        base.push(main_sep(style)) + name
    }
}

/// The last component of `p` (`Path::file_name`), if it is a name.
pub open spec fn file_name_spec(style: PathStyle, p: Seq<char>) -> Option<Seq<char>> {
    let t = strip_seps(style, p);
    let name = match last_sep(style, t) {
        Some(i) => t.skip(i + 1),
        None => t,
    };
    if name.len() == 0 || name == seq!['.', '.'] || name == seq!['.'] || is_drive(style, name) {
        None
    } else {
        Some(name)
    }
}

/// The text after the last `.` of a file name that does not start the name
/// (`Path::extension`).
pub open spec fn extension_of_name(name: Seq<char>) -> Option<Seq<char>> {
    match last_index(name, '.') {
        Some(i) => if i > 0 {
            Some(name.skip(i + 1))
        } else {
            None
        },
        None => None,
    }
}

pub open spec fn extension_spec(style: PathStyle, p: Seq<char>) -> Option<Seq<char>> {
    match file_name_spec(style, p) {
        Some(name) => extension_of_name(name),
        None => None,
    }
}

proof fn lemma_strip_seps_prefix(style: PathStyle, p: Seq<char>)
    ensures
        strip_seps(style, p) == p.take(strip_seps(style, p).len() as int),
        strip_seps(style, p).len() <= p.len(),
        strip_seps(style, p).len() > 0 ==> !is_sep(style, strip_seps(style, p).last()),
        forall|k: int|
            strip_seps(style, p).len() <= k < p.len() ==> is_sep(style, #[trigger] p[k]),
    decreases p.len(),
{
    if p.len() > 0 && is_sep(style, p.last()) {
        lemma_strip_seps_prefix(style, p.drop_last());
        let t = strip_seps(style, p.drop_last());
        assert(p.drop_last().take(t.len() as int) =~= p.take(t.len() as int));
        assert forall|k: int| t.len() <= k < p.len() implies is_sep(style, #[trigger] p[k]) by {
            if k < p.len() - 1 {
                assert(p[k] == p.drop_last()[k]);
            }
        }
    } else {
        assert(p.take(p.len() as int) =~= p);
    }
}

proof fn lemma_strip_seps_at(style: PathStyle, p: Seq<char>, n: int)
    requires
        0 <= n <= p.len(),
        n == 0 || !is_sep(style, p[n - 1]),
        forall|k: int| n <= k < p.len() ==> is_sep(style, p[k]),
    ensures
        strip_seps(style, p) == p.take(n),
    decreases p.len() - n,
{
    if n == p.len() {
        assert(p.take(n) =~= p);
        if p.len() > 0 {
            assert(p.last() == p[n - 1]);
        }
    } else {
        let q = p.drop_last();
        assert(is_sep(style, p.last()));
        assert forall|k: int| n <= k < q.len() implies is_sep(style, q[k]) by {
            assert(q[k] == p[k]);
        }
        if n > 0 {
            assert(q[n - 1] == p[n - 1]);
        }
        lemma_strip_seps_at(style, q, n);
        assert(q.take(n) =~= p.take(n));
    }
}

proof fn lemma_last_sep(style: PathStyle, p: Seq<char>)
    ensures
        last_sep(style, p) matches Some(i) ==> 0 <= i < p.len() && is_sep(style, p[i]) && forall|
            k: int,
        | i < k < p.len() ==> !is_sep(style, #[trigger] p[k]),
        last_sep(style, p) is None ==> forall|k: int|
            0 <= k < p.len() ==> !is_sep(style, #[trigger] p[k]),
    decreases p.len(),
{
    if p.len() > 0 && !is_sep(style, p.last()) {
        lemma_last_sep(style, p.drop_last());
        assert forall|k: int| 0 <= k < p.len() - 1 implies p[k] == p.drop_last()[k] by {}
    }
}

proof fn lemma_last_sep_at(style: PathStyle, p: Seq<char>, i: int)
    requires
        -1 <= i < p.len(),
        i >= 0 ==> is_sep(style, p[i]),
        forall|k: int| i < k < p.len() ==> !is_sep(style, p[k]),
    ensures
        last_sep(style, p) == (if i >= 0 {
            Some(i)
        } else {
            None::<int>
        }),
    decreases p.len(),
{
    if p.len() > 0 && i < p.len() - 1 {
        let q = p.drop_last();
        assert forall|k: int| i < k < q.len() implies !is_sep(style, q[k]) by {
            assert(q[k] == p[k]);
        }
        if i >= 0 {
            assert(q[i] == p[i]);
        }
        lemma_last_sep_at(style, q, i);
    }
}

/// Length of `p` once trailing separators are removed.
fn stripped_len(style: PathStyle, p: &Vec<char>, upto: usize) -> (n: usize)
    requires
        upto <= p.len(),
    ensures
        n <= upto,
        strip_seps(style, p@.take(upto as int)) == p@.take(n as int),
{
    let mut n = upto;
    while n > 0 && separator_test(style, p[n - 1])
        invariant
            n <= upto <= p.len(),
            forall|k: int| n <= k < upto ==> is_sep(style, p@[k]),
        decreases n,
    {
        n -= 1;
    }
    proof {
        let q = p@.take(upto as int);
        assert forall|k: int| n <= k < q.len() implies is_sep(style, q[k]) by {
            assert(q[k] == p@[k]);
        }
        if n > 0 {
            assert(q[n - 1] == p@[n - 1]);
        }
        lemma_strip_seps_at(style, q, n as int);
        assert(q.take(n as int) =~= p@.take(n as int));
    }
    n
}

/// Position of the last separator among `p[..upto]`.
fn last_sep_before(style: PathStyle, p: &Vec<char>, upto: usize) -> (res: Option<usize>)
    requires
        upto <= p.len(),
    ensures
        match last_sep(style, p@.take(upto as int)) {
            Some(i) => res == Some(i as usize),
            None => res is None,
        },
{
    let mut i = upto;
    while i > 0 && !separator_test(style, p[i - 1])
        invariant
            i <= upto <= p.len(),
            forall|k: int| i <= k < upto ==> !is_sep(style, p@[k]),
        decreases i,
    {
        i -= 1;
    }
    proof {
        let q = p@.take(upto as int);
        assert forall|k: int| i <= k < q.len() implies !is_sep(style, q[k]) by {
            assert(q[k] == p@[k]);
        }
        if i > 0 {
            assert(q[i - 1] == p@[i - 1]);
        }
        lemma_last_sep_at(style, q, i - 1);
    }
    if i == 0 {
        None
    } else {
        Some(i - 1)
    }
}

fn drive_test(style: PathStyle, p: &Vec<char>, len: usize) -> (res: bool)
    requires
        len <= p.len(),
    ensures
        res == is_drive(style, p@.take(len as int)),
{
    matches!(style, PathStyle::Windows) && len == 2 && p[1] == ':' && (('a' <= p[0] && p[0] <= 'z')
        || ('A' <= p[0] && p[0] <= 'Z'))
}

/// `Path::parent`.
pub fn parent(style: PathStyle, path: &str) -> (res: Option<String>)
    ensures
        match parent_spec(style, path@) {
            Some(q) => res matches Some(r) && r@ == q,
            None => res is None,
        },
{
    let p = chars_of(path);
    assert(p@.take(p.len() as int) =~= p@);
    let t_len = stripped_len(style, &p, p.len());
    let ghost t = p@.take(t_len as int);
    if t_len == 0 || drive_test(style, &p, t_len) {
        return None;
    }
    match last_sep_before(style, &p, t_len) {
        None => Some(String::new()),
        Some(i) => {
            proof {
                lemma_last_sep(style, t);
            }
            let h_len = stripped_len(style, &p, i);
            assert(t.take(i as int) =~= p@.take(i as int));
            if h_len == 0 || drive_test(style, &p, h_len) {
                assert(t.take(h_len + 1) =~= p@.subrange(0, h_len + 1));
                Some(string_of_range(&p, 0, h_len + 1))
            } else {
                assert(p@.take(h_len as int) =~= p@.subrange(0, h_len as int));
                Some(string_of_range(&p, 0, h_len))
            }
        },
    }
}

/// `Path::join` with a relative name.
pub fn join(style: PathStyle, base: &str, name: &str) -> (res: String)
    ensures
        res@ == join_spec(style, base@, name@),
{
    let b = chars_of(base);
    let mut out = string_of(&b);
    let needs_sep = !(b.len() == 0 || separator_test(style, b[b.len() - 1]) || drive_test(
        style,
        &b,
        b.len(),
    ));
    proof {
        assert(b@.take(b.len() as int) =~= b@);
    }
    if needs_sep {
        let sep = if matches!(style, PathStyle::Windows) {
            '\\'
        } else {
            '/'
        };
        push_char(&mut out, sep);
    }
    push_text(&mut out, name);
    out
}

/// `Path::file_name`.
pub fn file_name(style: PathStyle, path: &str) -> (res: Option<Vec<char>>)
    ensures
        match file_name_spec(style, path@) {
            Some(q) => res matches Some(r) && r@ == q,
            None => res is None,
        },
{
    let p = chars_of(path);
    assert(p@.take(p.len() as int) =~= p@);
    let t_len = stripped_len(style, &p, p.len());
    let ghost t = p@.take(t_len as int);
    let start = match last_sep_before(style, &p, t_len) {
        Some(i) => {
            proof {
                lemma_last_sep(style, t);
            }
            i + 1
        },
        None => 0,
    };
    let name = slice_chars(&p, start, t_len);
    proof {
        if start == 0 {
            assert(name@ =~= t);
        } else {
            assert(name@ =~= t.skip(start as int));
        }
    }
    let dotdot = name.len() == 2 && name[0] == '.' && name[1] == '.';
    let dot = name.len() == 1 && name[0] == '.';
    proof {
        if name@ == seq!['.', '.'] {
            assert(name@[0] == '.' && name@[1] == '.');
        }
        if dotdot {
            assert(name@ =~= seq!['.', '.']);
        }
        if name@ == seq!['.'] {
            assert(name@[0] == '.');
        }
        if dot {
            assert(name@ =~= seq!['.']);
        }
        assert(name@.take(name.len() as int) =~= name@);
    }
    if name.len() == 0 || dotdot || dot || drive_test(style, &name, name.len()) {
        None
    } else {
        Some(name)
    }
}

/// `Path::extension`.
pub fn extension(style: PathStyle, path: &str) -> (res: Option<Vec<char>>)
    ensures
        match extension_spec(style, path@) {
            Some(q) => res matches Some(r) && r@ == q,
            None => res is None,
        },
{
    let name = file_name(style, path)?;
    match rfind_char(&name, '.') {
        Some(i) => {
            proof {
                lemma_last_index(name@, '.');
            }
            if i > 0 {
                let ext = slice_chars(&name, i + 1, name.len());
                assert(ext@ =~= name@.skip(i + 1));
                Some(ext)
            } else {
                None
            }
        },
        None => None,
    }
}

} // verus!
