//! The pure decisions of the puzzle runner: which days a command
//! selects, and whether a produced answer matches its expected output.

use vstd::prelude::*;

verus! {

/// What the command line asked to run.
#[derive(Debug)]
pub enum Run {
    Today,
    All,
    Year { year: u64 },
    Day { year: u64, day: u64 },
}

impl Run {
    /// Whether the request selects the given year and day, where
    /// `most_recent` is today's puzzle.
    pub fn matches(&self, year: u64, day: u64, most_recent: (u64, u64)) -> (r: bool)
        ensures
            r == match *self {
                Run::Today => year == most_recent.0 && day == most_recent.1,
                Run::All => true,
                Run::Year { year: y } => y == year,
                Run::Day { year: y, day: d } => y == year && d == day,
            },
    {
        match self {
            Run::Today => year == most_recent.0 && day == most_recent.1,
            Run::All => true,
            Run::Year { year: y } => *y == year,
            Run::Day { year: y, day: d } => *y == year && *d == day,
        }
    }
}

/// A byte sequence with every trailing newline removed.
pub open spec fn trimmed(s: Seq<u8>) -> Seq<u8>
    decreases s.len(),
{
    if s.len() > 0 && s.last() == 10u8 {
        trimmed(s.drop_last())
    } else {
        s
    }
}

/// Strip trailing newlines from a byte string.
pub fn trim_trailing_newlines(s: &Vec<u8>) -> (r: Vec<u8>)
    ensures
        r@ == trimmed(s@),
{
    let mut end = s.len();
    proof {
        assert(s@.take(s@.len() as int) =~= s@);
    }
    while end > 0 && s[end - 1] == 10
        invariant
            0 <= end <= s@.len(),
            trimmed(s@) == trimmed(s@.take(end as int)),
        decreases end,
    {
        proof {
            assert(s@.take(end as int).drop_last() =~= s@.take(end - 1));
        }
        end = end - 1;
    }
    let mut r: Vec<u8> = Vec::new();
    let mut i: usize = 0;
    while i < end
        invariant
            0 <= i <= end <= s@.len(),
            r@ =~= s@.take(end as int).take(i as int),
        decreases end - i,
    {
        proof {
            assert(s@.take(end as int)[i as int] == s@[i as int]);
        }
        r.push(s[i]);
        i = i + 1;
    }
    proof {
        assert(s@.take(end as int).take(end as int) =~= s@.take(end as int));
        if end == s@.len() {
            assert(s@.take(end as int) =~= s@);
            assert(trimmed(s@) == s@);
        } else {
            assert(trimmed(s@.take(end as int)) == s@.take(end as int));
        }
    }
    r
}

/// Compare a produced answer against the expected output, both taken
/// up to trailing newlines: the verdict the runner reports for a part.
pub fn check_result(output: &Vec<u8>, expect: Option<&Vec<u8>>) -> (r: Result<
    Vec<u8>,
    crate::error::Error,
>)
    ensures
        expect is None ==> r is Err,
        match expect {
            None => r is Err,
            Some(e) => {
                &&& (trimmed(output@) == trimmed(e@) <==> r is Ok)
                &&& (r matches Ok(o) ==> o@ == trimmed(output@))
            },
        },
{
    let out = trim_trailing_newlines(output);
    match expect {
        None => Err(crate::error::Error::MissingExpect(String::new())),
        Some(e) => {
            let exp = trim_trailing_newlines(e);
            if eq_bytes(&out, &exp) {
                Ok(out)
            } else {
                Err(crate::error::Error::WrongAnswer(String::new(), String::new()))
            }
        }
    }
}

/// Byte-vector equality.
fn eq_bytes(a: &Vec<u8>, b: &Vec<u8>) -> (r: bool)
    ensures
        r == (a@ == b@),
{
    if a.len() != b.len() {
        proof {
            assert(a@ != b@);
        }
        return false;
    }
    let mut i: usize = 0;
    while i < a.len()
        invariant
            a@.len() == b@.len(),
            0 <= i <= a@.len(),
            forall|k: int| 0 <= k < i ==> a@[k] == b@[k],
        decreases a@.len() - i,
    {
        if a[i] != b[i] {
            proof {
                assert(a@[i as int] != b@[i as int]);
            }
            return false;
        }
        i = i + 1;
    }
    proof {
        assert(a@ =~= b@);
    }
    true
}

} // verus!
