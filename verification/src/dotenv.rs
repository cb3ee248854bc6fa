//! Reading a `.env` file's assignments.
//!
//! Only the text is handled here; finding the file and setting the process
//! environment are the caller's.
use vstd::prelude::*;
use crate::text::{
    chars_of, lines, lines_spec, split_once, split_once_spec, string_of, trim, trim_spec,
};

verus! {

/// The assignment one line holds, if any: `KEY=value` with the key and the
/// value trimmed and one pair of wrapping double quotes taken off the
/// value. Blank lines, `#` comments, lines without `=`, and an empty key or
/// value hold none.
pub open spec fn dotenv_entry(line: Seq<char>) -> Option<(Seq<char>, Seq<char>)> {
    let l = trim_spec(line);
    if l.len() == 0 || l[0] == '#' {
        None
    } else {
        match split_once_spec(l, '=') {
            None => None,
            Some((k, v)) => {
                let key = trim_spec(k);
                let v = trim_spec(v);
                let value = if v.len() >= 2 && v[0] == '"' && v.last() == '"' {
                    v.subrange(1, v.len() - 1)
                } else {
                    v
                };
                if key.len() == 0 || value.len() == 0 {
                    None
                } else {
                    Some((key, value))
                }
            },
        }
    }
}

/// The assignments of the lines, in order.
pub open spec fn dotenv_entries(ls: Seq<Seq<char>>) -> Seq<(Seq<char>, Seq<char>)>
    decreases ls.len(),
{
    if ls.len() == 0 {
        seq![]
    } else {
        match dotenv_entry(ls.last()) {
            Some(e) => dotenv_entries(ls.drop_last()).push(e),
            None => dotenv_entries(ls.drop_last()),
        }
    }
}

pub open spec fn pairs_view(v: Seq<(String, String)>) -> Seq<(Seq<char>, Seq<char>)> {
    v.map_values(|p: (String, String)| (p.0@, p.1@))
}

fn entry(line: &Vec<char>) -> (res: Option<(String, String)>)
    ensures
        match dotenv_entry(line@) {
            Some((k, v)) => res matches Some((rk, rv)) && rk@ == k && rv@ == v,
            None => res is None,
        },
{
    let l = trim(line);
    if l.len() == 0 || l[0] == '#' {
        return None;
    }
    let (k, v) = match split_once(&l, '=') {
        Some(kv) => kv,
        None => return None,
    };
    let key = trim(&k);
    let v = trim(&v);
    let value = if v.len() >= 2 && v[0] == '"' && v[v.len() - 1] == '"' {
        crate::text::slice_chars(&v, 1, v.len() - 1)
    } else {
        v
    };
    if key.len() == 0 || value.len() == 0 {
        None
    } else {
        Some((string_of(&key), string_of(&value)))
    }
}

/// The `KEY=value` assignments of a `.env` file's text, in order.
pub fn parse_dotenv(contents: &str) -> (out: Vec<(String, String)>)
    ensures
        pairs_view(out@) == dotenv_entries(lines_spec(contents@)),
{
    let chars = chars_of(contents);
    let ls = lines(&chars);
    let ghost lv = ls@.map_values(|l: Vec<char>| l@);
    let mut out: Vec<(String, String)> = Vec::new();
    let mut i: usize = 0;
    while i < ls.len()
        invariant
            i <= ls.len(),
            lv == ls@.map_values(|l: Vec<char>| l@),
            lv == lines_spec(contents@),
            pairs_view(out@) == dotenv_entries(lv.take(i as int)),
        decreases ls.len() - i,
    {
        assert(lv.take(i + 1).drop_last() =~= lv.take(i as int));
        assert(lv.take(i + 1).last() == ls@[i as int]@);
        match entry(&ls[i]) {
            Some(e) => {
                let ghost before = out@;
                out.push(e);
                assert(pairs_view(out@) =~= pairs_view(before).push((e.0@, e.1@)));
            },
            None => {},
        }
        i += 1;
    }
    assert(lv.take(ls.len() as int) =~= lv);
    out
}

/// Every assignment read has a non-empty key and value, the key has no
/// whitespace at either end and never starts a comment.
#[verifier::spinoff_prover]
pub proof fn law_entries_are_trimmed_and_non_empty(ls: Seq<Seq<char>>)
    ensures
        forall|i: int|
            0 <= i < dotenv_entries(ls).len() ==> {
                let (k, v) = #[trigger] dotenv_entries(ls)[i];
                &&& k.len() > 0 && v.len() > 0
                &&& k[0] != '#'
                &&& k == trim_spec(k)
            },
    decreases ls.len(),
{
    if ls.len() > 0 {
        law_entries_are_trimmed_and_non_empty(ls.drop_last());
        match dotenv_entry(ls.last()) {
            Some((k, v)) => {
                let line = ls.last();
                let a = crate::text::trim_start_spec(line);
                let l = trim_spec(line);
                crate::text::lemma_trim_start_no_ws(line);
                crate::text::lemma_trim_end_no_ws(a);
                assert(l[0] == a[0]);
                crate::text::lemma_first_index(l, '=');
                let j = crate::text::first_index(l, '=')->0;
                let k0 = l.take(j);
                crate::text::lemma_trim_idempotent(k0);
                if j == 0 {
                    assert(k0 =~= Seq::<char>::empty());
                    assert(trim_spec(k0) =~= Seq::<char>::empty());
                }
                assert(k0[0] == l[0]);
                lemma_trim_keeps_first(k0);
                let e = dotenv_entries(ls);
                let p = dotenv_entries(ls.drop_last());
                assert(e == p.push((k, v)));
                assert(k.len() > 0 && v.len() > 0 && k[0] != '#' && k == trim_spec(k));
                assert forall|i: int| 0 <= i < e.len() implies {
                    let (k1, v1) = #[trigger] e[i];
                    &&& k1.len() > 0 && v1.len() > 0
                    &&& k1[0] != '#'
                    &&& k1 == trim_spec(k1)
                } by {
                    if i < p.len() {
                        assert(e[i] == p[i]);
                    }
                }
            },
            None => {
                assert(dotenv_entries(ls) == dotenv_entries(ls.drop_last()));
            },
        }
    }
}

proof fn lemma_trim_end_keeps_first(s: Seq<char>)
    requires
        s.len() > 0,
        !crate::text::is_ws(s[0]),
    ensures
        crate::text::trim_end_spec(s).len() > 0,
        crate::text::trim_end_spec(s)[0] == s[0],
    decreases s.len(),
{
    if crate::text::is_ws(s.last()) {
        assert(s.len() > 1);
        lemma_trim_end_keeps_first(s.drop_last());
    }
}

proof fn lemma_trim_keeps_first(s: Seq<char>)
    requires
        s.len() > 0,
        !crate::text::is_ws(s[0]),
    ensures
        trim_spec(s).len() > 0,
        trim_spec(s)[0] == s[0],
{
    crate::text::lemma_trim_start_at(s, 0);
    assert(s.skip(0) =~= s);
    lemma_trim_end_keeps_first(s);
}

} // verus!
