//! Startup-config parsing: plain text, one `KEY=VALUE` assignment per line,
//! no escaping and no comments. A line without `=` is an `InvalidAssign`
//! failure.

use crate::error::{MinixError, MinixResult};
use crate::fs::Resolution;
use crate::path::{split_on, split_str, Path};
use crate::state::{seed_path, State};
use vstd::prelude::*;
use vstd::string::StrSliceExecFns;
use vstd::string::StringExecFns;

verus! {

/// The lines of a text, as `str::lines` hands them out, except for carriage
/// returns: split on `'\n'`, with the empty piece after a trailing newline
/// not counted as a line.
pub open spec fn config_lines(s: Seq<char>) -> Seq<Seq<char>> {
    if s.len() == 0 {
        Seq::empty()
    } else if s.last() == '\n' {
        split_on(s.take(s.len() - 1), '\n')
    } else {
        split_on(s, '\n')
    }
}

/// A line as `str::lines` hands it out: a trailing carriage return dropped.
pub open spec fn strip_cr(l: Seq<char>) -> Seq<char> {
    if l.len() > 0 && l.last() == '\r' {
        l.take(l.len() - 1)
    } else {
        l
    }
}

/// The position of the first occurrence of `c` in `l`, if any.
pub open spec fn first_index_of(l: Seq<char>, c: char) -> Option<int>
    decreases l.len(),
{
    if l.len() == 0 {
        None
    } else if l[0] == c {
        Some(0int)
    } else {
        match first_index_of(l.skip(1), c) {
            Some(i) => Some(i + 1),
            None => None,
        }
    }
}

proof fn lemma_first_index_of_some(l: Seq<char>, c: char, j: int)
    requires
        0 <= j < l.len(),
        l[j] == c,
        forall|k: int| 0 <= k < j ==> l[k] != c,
    ensures
        first_index_of(l, c) == Some(j),
    decreases l.len(),
{
    if j > 0 {
        assert(l.skip(1)[j - 1] == c);
        assert(forall|k: int| 0 <= k < j - 1 ==> l.skip(1)[k] != c);
        lemma_first_index_of_some(l.skip(1), c, j - 1);
    }
}

proof fn lemma_first_index_of_none(l: Seq<char>, c: char)
    requires
        forall|k: int| 0 <= k < l.len() ==> l[k] != c,
    ensures
        first_index_of(l, c) is None,
    decreases l.len(),
{
    if l.len() > 0 {
        assert(forall|k: int| 0 <= k < l.skip(1).len() ==> l.skip(1)[k] != c);
        lemma_first_index_of_none(l.skip(1), c);
    }
}

/// A `KEY=VALUE` assignment: the text before the first `=`, and the text
/// after it. A line without `=` has no reading.
pub open spec fn parse_line(l: Seq<char>) -> Option<(Seq<char>, Seq<char>)> {
    match first_index_of(l, '=') {
        Some(i) => Some((l.take(i), l.skip(i + 1))),
        None => None,
    }
}

/// Parses assignments line by line: the key/value pairs in order, or the
/// first line without `=`.
pub open spec fn parse_lines(lines: Seq<Seq<char>>) -> Result<
    Seq<(Seq<char>, Seq<char>)>,
    Seq<char>,
>
    decreases lines.len(),
{
    if lines.len() == 0 {
        Ok(Seq::empty())
    } else {
        match parse_line(lines[0]) {
            None => Err(lines[0]),
            Some(kv) => match parse_lines(lines.skip(1)) {
                Ok(rest) => Ok(seq![kv] + rest),
                Err(bad) => Err(bad),
            },
        }
    }
}

/// The lines of a config text as the parser reads them: split on `'\n'`,
/// each with a trailing carriage return dropped.
pub open spec fn stripped_lines(s: Seq<char>) -> Seq<Seq<char>> {
    config_lines(s).map_values(|l: Seq<char>| strip_cr(l))
}

/// What parsing a whole config text yields: its lines, carriage returns
/// stripped, read as assignments.
pub open spec fn parse_config(s: Seq<char>) -> Result<Seq<(Seq<char>, Seq<char>)>, Seq<char>> {
    parse_lines(stripped_lines(s))
}

/// The index of the first `c` in `s`, if any.
fn find_char(s: &str, c: char) -> (r: Option<usize>)
    ensures
        match r {
            Some(j) => j < s@.len() && first_index_of(s@, c) == Some(j as int),
            None => first_index_of(s@, c) is None,
        },
{
    let n = s.unicode_len();
    let mut j: usize = 0;
    while j < n
        invariant
            n == s@.len(),
            j <= n,
            forall|k: int| 0 <= k < j ==> s@[k] != c,
        decreases n - j,
    {
        if s.get_char(j) == c {
            proof {
                lemma_first_index_of_some(s@, c, j as int);
            }
            return Some(j);
        }
        j = j + 1;
    }
    proof {
        lemma_first_index_of_none(s@, c);
    }
    None
}

/// Reads the seed file `/env/startup_config` and parses its content into
/// key/value pairs, one `KEY=VALUE` assignment per line, in line order.
pub fn load_startup_config(state: &State) -> (r: MinixResult<Vec<(String, String)>>)
    requires
        state.fs.wf(),
        state.fs.resolve_read(seed_path()) matches Resolution::Found(_),
    ensures
        state.fs.resolve_read(seed_path()) matches Resolution::Found(f) ==> match parse_config(
            f.content@,
        ) {
            Ok(pairs) => r matches Ok(v) && v.deep_view() == pairs,
            Err(bad) => r matches Err(e) && e matches MinixError::InvalidAssign(s) && s@ == bad,
        },
{
    let mut segs: Vec<String> = Vec::new();
    segs.push("env".to_owned());
    segs.push("startup_config".to_owned());
    let path = Path { elements: segs };
    proof {
        assert(path@ =~= seed_path());
    }
    let file = match state.fs.get_file(path) {
        Ok(f) => f,
        Err(_) => {
            proof {
                assert(false);
            }
            vstd::pervasive::unreached()
        },
    };
    let s = file.content.as_str();
    let n = s.unicode_len();
    let lines: Vec<String> = if n == 0 {
        Vec::new()
    } else if s.get_char(n - 1) == '\n' {
        split_str(s.substring_char(0, n - 1), '\n')
    } else {
        split_str(s, '\n')
    };
    proof {
        if n > 0 && s@.last() == '\n' {
            assert(s@.subrange(0, n - 1) =~= s@.take(n - 1));
        }
        assert(lines.deep_view() =~= config_lines(s@));
    }
    let ghost lv = stripped_lines(s@);
    let mut pairs: Vec<(String, String)> = Vec::new();
    let mut k: usize = 0;
    proof {
        assert(lv.skip(0) =~= lv);
    }
    while k < lines.len()
        invariant
            k <= lines@.len(),
            state.fs.resolve_read(seed_path()) matches Resolution::Found(f) && s@ == f.content@,
            lines.deep_view() =~= config_lines(s@),
            lv == stripped_lines(s@),
            match parse_lines(lv.skip(k as int)) {
                Ok(rest) => parse_lines(lv) == Ok::<_, Seq<char>>(pairs.deep_view() + rest),
                Err(bad) => parse_lines(lv) == Err::<Seq<(Seq<char>, Seq<char>)>, _>(bad),
            },
        decreases lines@.len() - k,
    {
        let ls = lines[k].as_str();
        let m = ls.unicode_len();
        let stripped: &str = if m > 0 && ls.get_char(m - 1) == '\r' {
            ls.substring_char(0, m - 1)
        } else {
            ls
        };
        proof {
            if m > 0 && ls@.last() == '\r' {
                assert(ls@.subrange(0, m - 1) =~= ls@.take(m - 1));
            }
            assert(lines.deep_view()[k as int] == ls@);
            assert(lv[k as int] == strip_cr(ls@));
            assert(stripped@ == lv[k as int]);
            assert(lv.skip(k as int)[0] == lv[k as int]);
            assert(lv.skip(k as int).skip(1) =~= lv.skip(k + 1));
        }
        let sm = stripped.unicode_len();
        match find_char(stripped, '=') {
            None => {
                proof {
                    assert(parse_line(lv[k as int]) is None);
                    assert(parse_lines(lv.skip(k as int)) == Err::<
                        Seq<(Seq<char>, Seq<char>)>,
                        _,
                    >(lv[k as int]));
                }
                return Err(MinixError::InvalidAssign(stripped.to_owned()));
            },
            Some(i) => {
                let key = stripped.substring_char(0, i).to_owned();
                let value = stripped.substring_char(i + 1, sm).to_owned();
                let ghost kv = (lv[k as int].take(i as int), lv[k as int].skip(i + 1));
                proof {
                    assert(parse_line(lv[k as int]) == Some(kv));
                    assert(key@ =~= kv.0);
                    assert(value@ =~= kv.1);
                }
                let ghost opv = pairs.deep_view();
                pairs.push((key, value));
                proof {
                    assert(pairs.deep_view() =~= opv + seq![kv]);
                    match parse_lines(lv.skip(k + 1)) {
                        Ok(rest) => {
                            assert(parse_lines(lv.skip(k as int)) == Ok::<_, Seq<char>>(
                                seq![kv] + rest,
                            ));
                            assert(opv + (seq![kv] + rest) =~= pairs.deep_view() + rest);
                        },
                        Err(bad) => {
                            assert(parse_lines(lv.skip(k as int)) == Err::<
                                Seq<(Seq<char>, Seq<char>)>,
                                _,
                            >(bad));
                        },
                    }
                }
            },
        }
        k = k + 1;
    }
    proof {
        assert(lv.skip(lines@.len() as int) =~= Seq::<Seq<char>>::empty());
        assert(parse_lines(Seq::<Seq<char>>::empty()) == Ok::<_, Seq<char>>(Seq::<
            (Seq<char>, Seq<char>),
        >::empty()));
        assert(pairs.deep_view() + Seq::<(Seq<char>, Seq<char>)>::empty() =~= pairs.deep_view());
    }
    Ok(pairs)
}

} // verus!
