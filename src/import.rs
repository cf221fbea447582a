//! Converting a table of dated events (`dd-month<TAB>title` per line) into
//! lines of the event language.
use vstd::prelude::*;
use vstd::string::StringExecFns;

use crate::text::{chars_of, find_either, first_of, lemma_first_of_bounds, trim, trim_range};

verus! {

/// Why an import line could not be read.
#[derive(Debug, Clone, Copy, PartialEq, Eq, Structural)]
pub enum ImportError {
    /// The date before the tab has no `-` between day and month.
    MissingDash,
}

/// The number of `0` characters at the start of `s`.
pub open spec fn leading_zeros(s: Seq<char>) -> int
    decreases s.len(),
{
    if s.len() > 0 && s[0] == '0' {
        1 + leading_zeros(s.drop_first())
    } else {
        0
    }
}

/// The event line for one line of the table: none for a line without a tab
/// or with an empty title, else `day month title` and a CRLF, the day
/// without leading zeros.
pub open spec fn import_line_of(line: Seq<char>) -> Result<Option<Seq<char>>, ImportError> {
    let t = trim(line);
    let i = first_of(t, '\t', '\t');
    if i >= t.len() {
        Ok(None)
    } else {
        let date = t.take(i);
        let title = trim(t.skip(i + 1));
        let k = first_of(date, '-', '-');
        if k >= date.len() {
            Err(ImportError::MissingDash)
        } else {
            let day = trim(date.take(k));
            let day = day.skip(leading_zeros(day));
            let month = trim(date.skip(k + 1));
            if title.len() == 0 {
                Ok(None)
            } else {
                Ok(Some(day + seq![' '] + month + seq![' '] + title + seq!['\r', '\n']))
            }
        }
    }
}

pub open spec fn import_view(r: Result<Option<String>, ImportError>) -> Result<
    Option<Seq<char>>,
    ImportError,
> {
    match r {
        Ok(Some(s)) => Ok(Some(s@)),
        Ok(None) => Ok(None),
        Err(e) => Err(e),
    }
}

/// Converts one line of the table.
pub fn import_line(line: &str) -> (r: Result<Option<String>, ImportError>)
    ensures
        import_view(r) == import_line_of(line@),
{
    let v = chars_of(line);
    assert(v@.subrange(0, v@.len() as int) == line@);
    let (a, b) = trim_range(&v, 0, v.len());
    let ghost t = v@.subrange(a as int, b as int);
    let i = find_either(&v, a, b, '\t', '\t');
    proof {
        lemma_first_of_bounds(t, '\t', '\t');
    }
    if i == b {
        return Ok(None);
    }
    let ghost date = t.take(i - a);
    assert(date == v@.subrange(a as int, i as int));
    assert(t.skip(i - a + 1) == v@.subrange(i + 1, b as int));
    let (ta, tb) = trim_range(&v, i + 1, b);
    let k = find_either(&v, a, i, '-', '-');
    proof {
        lemma_first_of_bounds(date, '-', '-');
    }
    if k == i {
        return Err(ImportError::MissingDash);
    }
    assert(date.take(k - a) == v@.subrange(a as int, k as int));
    assert(date.skip(k - a + 1) == v@.subrange(k + 1, i as int));
    let (da, db) = trim_range(&v, a, k);
    let (ma, mb) = trim_range(&v, k + 1, i);
    let mut z = da;
    while z < db && v[z] == '0'
        invariant
            da <= z <= db <= v.len(),
            leading_zeros(v@.subrange(da as int, db as int)) == (z - da) + leading_zeros(
                v@.subrange(z as int, db as int),
            ),
        decreases db - z,
    {
        assert(v@.subrange(z as int, db as int).drop_first() == v@.subrange(z + 1, db as int));
        z = z + 1;
    }
    assert(v@.subrange(da as int, db as int).skip(z - da) == v@.subrange(z as int, db as int));
    if ta == tb {
        return Ok(None);
    }
    let mut out = String::new();
    out.append(line.substring_char(z, db));
    out.append(" ");
    out.append(line.substring_char(ma, mb));
    out.append(" ");
    out.append(line.substring_char(ta, tb));
    out.append("\r\n");
    proof {
        reveal_strlit(" ");
        reveal_strlit("\r\n");
    }
    assert(out@ == v@.subrange(z as int, db as int) + seq![' '] + v@.subrange(ma as int, mb as int)
        + seq![' '] + v@.subrange(ta as int, tb as int) + seq!['\r', '\n']);
    Ok(Some(out))
}

} // verus!
