//! Reading the list of banned categories: tab-separated lines whose first
//! column is an entity id; empty lines and lines starting with `#` are
//! comments.
use crate::ids::{chars_of, entity_number, int_id_chars, IdError};
use vstd::prelude::*;

verus! {

/// The index of the first `c` in `s`, or its length.
pub open spec fn index_of(s: Seq<char>, c: char) -> nat
    decreases s.len(),
{
    if s.len() == 0 {
        0
    } else if s[0] == c {
        0
    } else {
        1 + index_of(s.drop_first(), c)
    }
}

/// The first line of a text, without its line ending (`\n` or `\r\n`).
pub open spec fn first_line(s: Seq<char>) -> Seq<char> {
    let e = index_of(s, '\n') as int;
    let l = s.subrange(0, e);
    if e < s.len() && l.len() > 0 && l.last() == '\r' {
        l.drop_last()
    } else {
        l
    }
}

/// What follows the first line ending of a text.
pub open spec fn after_first_line(s: Seq<char>) -> Seq<char> {
    let e = index_of(s, '\n') as int;
    if e < s.len() {
        s.subrange(e + 1, s.len() as int)
    } else {
        Seq::<char>::empty()
    }
}

/// The ids of the banned-category list, in order, or the error of the first
/// line whose first column is not an entity id.
pub open spec fn banned_from_text(s: Seq<char>) -> Result<Seq<u64>, IdError>
    decreases s.len(),
{
    if s.len() == 0 {
        Ok(Seq::<u64>::empty())
    } else {
        let line = first_line(s);
        let tail = banned_from_text(after_first_line(s));
        if line.len() == 0 || line[0] == '#' {
            tail
        } else {
            match entity_number(line.subrange(0, index_of(line, '\t') as int)) {
                Err(e) => Err(e),
                Ok(n) => match tail {
                    Ok(t) => Ok(seq![n] + t),
                    Err(e) => Err(e),
                },
            }
        }
    }
}

/// The ids `done` followed by those of `rest`, or the error of `rest`.
pub open spec fn prepend(done: Seq<u64>, rest: Result<Seq<u64>, IdError>) -> Result<Seq<u64>, IdError> {
    match rest {
        Ok(t) => Ok(done + t),
        Err(e) => Err(e),
    }
}

proof fn lemma_index_of(s: Seq<char>, c: char, q: int)
    requires
        0 <= q <= s.len(),
        forall|k: int| 0 <= k < q ==> s[k] != c,
        q == s.len() || s[q] == c,
    ensures
        index_of(s, c) == q,
    decreases q,
{
    if q > 0 {
        lemma_index_of(s.drop_first(), c, q - 1);
    }
}

/// The first position at or after `from`, and before `to`, that holds `c`,
/// or `to`.
fn find_char(cs: &Vec<char>, from: usize, to: usize, c: char) -> (r: usize)
    requires
        from <= to <= cs@.len(),
    ensures
        from <= r <= to,
        r == from + index_of(cs@.subrange(from as int, to as int), c),
{
    let mut q = from;
    while q < to && cs[q] != c
        invariant
            from <= q <= to,
            to <= cs@.len(),
            forall|k: int| from <= k < q ==> cs@[k] != c,
        decreases to - q,
    {
        q = q + 1;
    }
    proof {
        let sub = cs@.subrange(from as int, to as int);
        assert forall|k: int| 0 <= k < q - from implies sub[k] != c by {
            assert(sub[k] == cs@[from + k]);
        };
        lemma_index_of(sub, c, q - from);
    }
    q
}

/// Where the line that starts at `pos` ends, without its line ending, and
/// where the next line starts.
fn line_bounds(cs: &Vec<char>, pos: usize) -> (r: (usize, usize))
    requires
        pos < cs@.len(),
    ensures
        pos <= r.0 <= cs@.len(),
        pos < r.1 <= cs@.len(),
        cs@.subrange(pos as int, r.0 as int) == first_line(cs@.subrange(pos as int, cs@.len() as int)),
        cs@.subrange(r.1 as int, cs@.len() as int) == after_first_line(cs@.subrange(pos as int, cs@.len() as int)),
{
    let n = cs.len();
    let ghost sfx = cs@.subrange(pos as int, n as int);
    let e = find_char(cs, pos, n, '\n');
    let mut line_to = e;
    if e < n && line_to > pos && cs[line_to - 1] == '\r' {
        line_to = line_to - 1;
    }
    assert(cs@.subrange(pos as int, line_to as int) =~= first_line(sfx));
    let next = if e < n { e + 1 } else { n };
    assert(cs@.subrange(next as int, n as int) =~= after_first_line(sfx));
    (line_to, next)
}

/// One step of the list: the first line's contribution before the rest.
proof fn lemma_banned_step(s: Seq<char>)
    requires
        s.len() > 0,
    ensures
        banned_from_text(s) == ({
            let line = first_line(s);
            let tail = banned_from_text(after_first_line(s));
            if line.len() == 0 || line[0] == '#' {
                tail
            } else {
                match entity_number(line.subrange(0, index_of(line, '\t') as int)) {
                    Err(e) => Err(e),
                    Ok(n) => match tail {
                        Ok(t) => Ok(seq![n] + t),
                        Err(e) => Err(e),
                    },
                }
            }
        }),
{
}

/// The ids of a banned-category list, in order.
pub fn parse_banned_categories(s: &str) -> (r: Result<Vec<u64>, IdError>)
    ensures
        match r {
            Ok(v) => banned_from_text(s@) == Ok::<Seq<u64>, IdError>(v@),
            Err(e) => banned_from_text(s@) == Err::<Seq<u64>, IdError>(e),
        },
{
    let cs = chars_of(s);
    let n = cs.len();
    let mut out: Vec<u64> = Vec::new();
    let mut pos: usize = 0;
    assert(cs@.subrange(0, n as int) =~= cs@);
    while pos < n
        invariant
            n == cs@.len(),
            cs@ == s@,
            pos <= n,
            banned_from_text(s@) == prepend(out@, banned_from_text(cs@.subrange(pos as int, n as int))),
        decreases n - pos,
    {
        let ghost sfx = cs@.subrange(pos as int, n as int);
        let (line_to, next) = line_bounds(&cs, pos);
        let ghost line = first_line(sfx);
        let ghost tail = banned_from_text(cs@.subrange(next as int, n as int));
        proof {
            lemma_banned_step(sfx);
        }
        if line_to > pos && cs[pos] != '#' {
            assert(line[0] == cs@[pos as int]);
            let tab = find_char(&cs, pos, line_to, '\t');
            proof {
                assert(line.subrange(0, index_of(line, '\t') as int) =~= cs@.subrange(pos as int, tab as int));
            }
            match int_id_chars(&cs, pos, tab) {
                Ok(id) => {
                    proof {
                        match tail {
                            Ok(t) => {
                                assert(out@.push(id) + t =~= out@ + (seq![id] + t));
                            },
                            Err(_) => {},
                        }
                    }
                    out.push(id);
                },
                Err(err) => {
                    return Err(err);
                },
            }
        } else {
            proof {
                if line_to > pos {
                    assert(line[0] == cs@[pos as int]);
                }
            }
        }
        pos = next;
    }
    assert(out@ + Seq::<u64>::empty() =~= out@);
    Ok(out)
}

} // verus!
