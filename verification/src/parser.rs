//! Puzzle-input lines and the cleanup options applied while loading
//! them: trimming, comment removal and empty-line removal.

use vstd::prelude::*;

verus! {

/// A loaded input: one entry per line, as bytes.
pub struct Lines {
    pub lines: Vec<Vec<u8>>,
}

/// A set of line-cleanup flags.
#[derive(Clone, Copy, Debug, PartialEq, Eq, Structural)]
pub struct LinesOpt {
    pub bits: u8,
}

impl LinesOpt {
    /// Keep lines exactly as read.
    pub fn raw() -> (r: Self)
        ensures
            r.bits == 0,
    {
        LinesOpt { bits: 0 }
    }

    /// Trim leading and trailing whitespace.
    pub fn trim() -> (r: Self)
        ensures
            r.bits == 1,
    {
        LinesOpt { bits: 1 }
    }

    /// Drop lines starting with `#`.
    pub fn remove_comments() -> (r: Self)
        ensures
            r.bits == 2,
    {
        LinesOpt { bits: 2 }
    }

    /// Drop empty lines.
    pub fn remove_empty() -> (r: Self)
        ensures
            r.bits == 4,
    {
        LinesOpt { bits: 4 }
    }

    /// All cleanup at once.
    pub fn all() -> (r: Self)
        ensures
            r.bits == 0xFF,
    {
        LinesOpt { bits: 0xFF }
    }

    /// Whether every flag of `rhs` is present.
    pub fn contains(&self, rhs: Self) -> (r: bool)
        ensures
            r == (self.bits & rhs.bits == rhs.bits),
    {
        self.bits & rhs.bits == rhs.bits
    }

    /// The union of two flag sets.
    pub fn union(&self, rhs: Self) -> (r: Self)
        ensures
            r.bits == self.bits | rhs.bits,
    {
        LinesOpt { bits: self.bits | rhs.bits }
    }
}

/// The flags decoded: whether each cleanup applies.
pub open spec fn opt_trim(o: LinesOpt) -> bool {
    o.bits & 1 == 1
}

pub open spec fn opt_remove_comments(o: LinesOpt) -> bool {
    o.bits & 2 == 2
}

pub open spec fn opt_remove_empty(o: LinesOpt) -> bool {
    o.bits & 4 == 4
}

/// ASCII whitespace.
pub open spec fn is_ws(b: u8) -> bool {
    b == 32 || b == 9 || b == 10 || b == 11 || b == 12 || b == 13
}

/// The first index of `s` from `i` on that holds a non-blank byte.
pub open spec fn skip_ws(s: Seq<u8>, i: int) -> int
    decreases s.len() - i,
{
    if i < 0 {
        skip_ws(s, 0)
    } else if i >= s.len() {
        s.len() as int
    } else if is_ws(s[i]) {
        skip_ws(s, i + 1)
    } else {
        i
    }
}

/// One past the last non-blank byte of `s.take(j)`.
pub open spec fn rskip_ws(s: Seq<u8>, j: int) -> int
    decreases j,
{
    if j <= 0 {
        0
    } else if is_ws(s[j - 1]) {
        rskip_ws(s, j - 1)
    } else {
        j
    }
}

/// `s` with surrounding whitespace removed.
pub open spec fn trimmed_line(s: Seq<u8>) -> Seq<u8> {
    let a = skip_ws(s, 0);
    let b = rskip_ws(s, s.len() as int);
    if a <= b {
        s.subrange(a, b)
    } else {
        Seq::empty()
    }
}

/// One raw line after cleanup: the kept bytes, or `None` when the line
/// is dropped.
pub open spec fn clean_line(s: Seq<u8>, o: LinesOpt) -> Option<Seq<u8>> {
    let l = if opt_trim(o) {
        trimmed_line(s)
    } else {
        s
    };
    if opt_remove_comments(o) && l.len() > 0 && l[0] == 35 {
        None
    } else if opt_remove_empty(o) && l.len() == 0 {
        None
    } else {
        Some(l)
    }
}

/// The cleaned form of the first `i` raw lines.
pub open spec fn clean_lines(raw: Seq<Seq<u8>>, o: LinesOpt, i: int) -> Seq<Seq<u8>>
    decreases i,
{
    if i <= 0 {
        Seq::empty()
    } else {
        let rest = clean_lines(raw, o, i - 1);
        match clean_line(raw[i - 1], o) {
            Some(l) => rest.push(l),
            None => rest,
        }
    }
}

/// The decimal digits of `n`, most significant first, as text.
pub open spec fn dec_chars(n: nat) -> Seq<char>
    decreases n,
{
    if n < 10 {
        seq![((48 + n) as u8) as char]
    } else {
        dec_chars(n / 10).push(((48 + n % 10) as u8) as char)
    }
}

/// The complaint raised when one line was wanted and `n` were held.
pub open spec fn wrong_count_msg(n: nat) -> Seq<char> {
    "Expected only 1 line, got "@ + dec_chars(n)
}

/// One decimal digit as text.
fn digit_str(d: u64) -> (r: &'static str)
    requires
        d < 10,
    ensures
        r@ == seq![((48 + d) as u8) as char],
{
    proof {
        reveal_strlit("0");
        reveal_strlit("1");
        reveal_strlit("2");
        reveal_strlit("3");
        reveal_strlit("4");
        reveal_strlit("5");
        reveal_strlit("6");
        reveal_strlit("7");
        reveal_strlit("8");
        reveal_strlit("9");
    }
    let r = match d {
        0 => "0",
        1 => "1",
        2 => "2",
        3 => "3",
        4 => "4",
        5 => "5",
        6 => "6",
        7 => "7",
        8 => "8",
        _ => "9",
    };
    proof {
        assert(r@ =~= seq![((48 + d) as u8) as char]);
    }
    r
}

/// `n` rendered in decimal.
fn dec_string(n: u64) -> (r: String)
    ensures
        r@ == dec_chars(n as nat),
    decreases n,
{
    if n < 10 {
        let mut r = String::new();
        r.append(digit_str(n));
        proof {
            assert(r@ =~= dec_chars(n as nat));
        }
        r
    } else {
        let mut r = dec_string(n / 10);
        r.append(digit_str(n % 10));
        proof {
            assert(r@ =~= dec_chars(n as nat));
        }
        r
    }
}

impl Lines {
    /// Build from raw lines, applying the cleanup the options ask for.
    pub fn from_lines(raw: Vec<Vec<u8>>, options: LinesOpt) -> (r: Lines)
        ensures
            r.lines@.map_values(|l: Vec<u8>| l@) == clean_lines(
                raw@.map_values(|l: Vec<u8>| l@),
                options,
                raw@.len() as int,
            ),
    {
        let mut lines: Vec<Vec<u8>> = Vec::new();
        let mut i: usize = 0;
        let ghost rawv = raw@.map_values(|l: Vec<u8>| l@);
        while i < raw.len()
            invariant
                0 <= i <= raw@.len(),
                rawv == raw@.map_values(|l: Vec<u8>| l@),
                lines@.map_values(|l: Vec<u8>| l@) =~= clean_lines(rawv, options, i as int),
            decreases raw@.len() - i,
        {
            let line = &raw[i];
            let mut l: Vec<u8>;
            if options.bits & 1 == 1 {
                l = trim_bytes(line);
            } else {
                l = copy_bytes(line);
            }
            proof {
                assert(rawv[i as int] == raw@[i as int]@);
            }
            let drop_line = (options.bits & 2 == 2 && l.len() > 0 && l[0] == 35) || (options.bits
                & 4 == 4 && l.len() == 0);
            let ghost pre = lines@;
            if !drop_line {
                lines.push(l);
                proof {
                    assert(lines@.map_values(|x: Vec<u8>| x@) =~= pre.map_values(
                        |x: Vec<u8>| x@,
                    ).push(clean_line(rawv[i as int], options).unwrap()));
                }
            }
            i = i + 1;
        }
        proof {
            assert(lines@.map_values(|l: Vec<u8>| l@) =~= clean_lines(
                rawv,
                options,
                raw@.len() as int,
            ));
        }
        Lines { lines }
    }

    /// The number of lines held.
    pub fn len(&self) -> (r: usize)
        ensures
            r == self.lines@.len(),
    {
        self.lines.len()
    }

    /// The single line of a one-line input, or an error naming how
    /// many lines there were.
    pub fn single_line(self) -> (r: Result<Vec<u8>, crate::error::Error>)
        ensures
            self.lines@.len() == 1 <==> r is Ok,
            r matches Ok(l) ==> l@ == self.lines@[0]@,
            r matches Err(e) ==> e matches crate::error::Error::InvalidInput(m) && m@
                == wrong_count_msg(self.lines@.len()),
    {
        let mut lines = self.lines;
        if lines.len() == 1 {
            let l = lines.remove(0);
            Ok(l)
        } else {
            let n = lines.len();
            let mut msg = String::from_str("Expected only 1 line, got ");
            let digits = dec_string(n as u64);
            msg.append(digits.as_str());
            proof {
                assert(msg@ == wrong_count_msg(n as nat));
            }
            Err(crate::error::Error::InvalidInput(msg))
        }
    }

    /// A walker over the lines.
    pub fn iter(&self) -> (r: LinesIter)
        ensures
            r.idx == 0,
    {
        LinesIter { idx: 0 }
    }

    /// The line at `i`.
    pub fn get(&self, i: usize) -> (r: &Vec<u8>)
        requires
            i < self.lines@.len(),
        ensures
            r@ == self.lines@[i as int]@,
    {
        &self.lines[i]
    }
}

/// A cursor over a [`Lines`] value.
pub struct LinesIter {
    pub idx: usize,
}

impl LinesIter {
    /// The next line of `lines`, if any.
    pub fn next<'a>(&mut self, lines: &'a Lines) -> (r: Option<&'a Vec<u8>>)
        ensures
            old(self).idx < lines.lines@.len() ==> (r matches Some(l) && l@ == lines.lines@[old(
                self,
            ).idx as int]@ && final(self).idx == old(self).idx + 1),
            old(self).idx >= lines.lines@.len() ==> r is None && final(self).idx == old(self).idx,
    {
        if self.idx < lines.lines.len() {
            let l = &lines.lines[self.idx];
            self.idx = self.idx + 1;
            Some(l)
        } else {
            None
        }
    }
}

/// A copy of a byte line.
fn copy_bytes(v: &Vec<u8>) -> (r: Vec<u8>)
    ensures
        r@ =~= v@,
{
    let mut r: Vec<u8> = Vec::new();
    let mut i: usize = 0;
    while i < v.len()
        invariant
            0 <= i <= v@.len(),
            r@ =~= v@.take(i as int),
        decreases v@.len() - i,
    {
        r.push(v[i]);
        i = i + 1;
    }
    proof {
        assert(v@.take(v@.len() as int) =~= v@);
    }
    r
}

/// A line with surrounding ASCII whitespace removed.
fn trim_bytes(v: &Vec<u8>) -> (r: Vec<u8>)
    ensures
        r@ == trimmed_line(v@),
{
    let mut a: usize = 0;
    while a < v.len() && (v[a] == 32 || v[a] == 9 || v[a] == 10 || v[a] == 11 || v[a] == 12 || v[a]
        == 13)
        invariant
            0 <= a <= v@.len(),
            skip_ws(v@, 0) == skip_ws(v@, a as int),
            forall|k: int| 0 <= k < a ==> is_ws(#[trigger] v@[k]),
        decreases v@.len() - a,
    {
        a = a + 1;
    }
    let mut b: usize = v.len();
    while b > a && (v[b - 1] == 32 || v[b - 1] == 9 || v[b - 1] == 10 || v[b - 1] == 11 || v[b - 1]
        == 12 || v[b - 1] == 13)
        invariant
            a <= b <= v@.len(),
            rskip_ws(v@, v@.len() as int) == rskip_ws(v@, b as int),
        decreases b,
    {
        b = b - 1;
    }
    proof {
        assert(skip_ws(v@, a as int) == a);
        assert(skip_ws(v@, 0) == a);
        if b > a {
            assert(rskip_ws(v@, b as int) == b);
            assert(rskip_ws(v@, v@.len() as int) == b);
        } else {
            lemma_rskip_le(v@, a as int);
            assert(rskip_ws(v@, v@.len() as int) <= a);
        }
    }
    let mut r: Vec<u8> = Vec::new();
    let mut i = a;
    while i < b
        invariant
            a <= i <= b <= v@.len(),
            r@ =~= v@.subrange(a as int, i as int),
        decreases b - i,
    {
        proof {
            assert(v@.subrange(a as int, i + 1).drop_last() =~= v@.subrange(a as int, i as int));
        }
        r.push(v[i]);
        i = i + 1;
    }
    proof {
        let a0 = skip_ws(v@, 0);
        let b0 = rskip_ws(v@, v@.len() as int);
        if b > a {
            assert(trimmed_line(v@) =~= v@.subrange(a as int, b as int));
        } else {
            // everything between the bounds was blank: the trim is empty
            assert(b0 <= a0);
            if a0 <= b0 {
                assert(a0 == b0);
                assert(v@.subrange(a0, b0) =~= Seq::<u8>::empty());
            }
            assert(trimmed_line(v@) =~= Seq::<u8>::empty());
            assert(r@ =~= Seq::<u8>::empty());
        }
        assert(r@ =~= trimmed_line(v@));
    }
    r
}

/// The right scan never moves forward.
proof fn lemma_rskip_le(s: Seq<u8>, j: int)
    requires
        j >= 0,
    ensures
        0 <= rskip_ws(s, j) <= j,
    decreases j,
{
    if j > 0 && is_ws(s[j - 1]) {
        lemma_rskip_le(s, j - 1);
    }
}

} // verus!
