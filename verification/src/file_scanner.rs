//! The input-file naming scheme: parsing a file name of the shape
//! `input-YEAR-DAY[-sample][-PART][-x].txt` (or `.expectN` for an
//! expected-output file) into its parts.

use vstd::prelude::*;

verus! {

/// What kind of directory entry a search is after.
pub enum SearchType {
    File,
    Dir,
}

/// What a well-formed input file name says about its file.
#[derive(Clone, Copy, Debug, PartialEq, Eq, Structural)]
pub struct InputFileInfo {
    pub year: u64,
    pub day: u64,
    /// The part number for an expected-output file; zero for an input.
    pub expect: u64,
    pub sample: bool,
    pub part: u64,
    pub idx: u8,
}

/// A parsed input file: where it lives and what its name means.
pub struct InputFile {
    pub path: Vec<u8>,
    pub info: InputFileInfo,
}

impl InputFile {
    /// The stored path bytes.
    pub fn path(&self) -> (r: &Vec<u8>)
        ensures
            r@ == self.path@,
    {
        &self.path
    }

    /// Parse `file_name` and keep `path` alongside the result; `None`
    /// when the name does not follow the scheme.
    pub fn parse(path: Vec<u8>, file_name: &Vec<u8>) -> (r: Option<InputFile>)
        ensures
            r matches Some(f) ==> f.path@ == path@ && Some(f.info) == parse_name_spec(
                file_name@,
            ),
            r is None ==> parse_name_spec(file_name@) is None,
    {
        let mut parts = split_tokens(file_name);
        match parse_tokens(&mut parts) {
            Some(info) => Some(InputFile { path, info }),
            None => None,
        }
    }
}

/// A byte is one of the separators of the naming scheme.
pub open spec fn is_sep(b: u8) -> bool {
    b == 45 || b == 46
}

/// The name split on `-` and `.`, last token first.
pub open spec fn tokens_spec(name: Seq<u8>) -> Seq<Seq<u8>>
    decreases name.len(),
{
    tokens_rec(name, name.len() as int)
}

/// The tokens of `name.take(end)`, last token first.
pub open spec fn tokens_rec(name: Seq<u8>, end: int) -> Seq<Seq<u8>>
    decreases end,
{
    if end < 0 {
        Seq::empty()
    } else {
        let start0 = token_start(name, end);
        let start = if start0 <= end {
            start0
        } else {
            end
        };
        if start <= 0 {
            seq![name.subrange(0, end)]
        } else {
            tokens_rec(name, start - 1).push(name.subrange(start, end))
        }
    }
}

/// The start of the token ending at `end`: one past the last separator
/// before it.
pub open spec fn token_start(name: Seq<u8>, end: int) -> int
    decreases end,
{
    if end <= 0 {
        0
    } else if is_sep(name[end - 1]) {
        end
    } else {
        token_start(name, end - 1)
    }
}

/// The fixed tokens of the naming scheme, spelled in bytes.
pub open spec fn tok_txt() -> Seq<u8> {
    seq![116u8, 120, 116]
}

pub open spec fn tok_expect(n: u8) -> Seq<u8> {
    seq![101u8, 120, 112, 101, 99, 116, (48 + n) as u8]
}

pub open spec fn tok_sample() -> Seq<u8> {
    seq![115u8, 97, 109, 112, 108, 101]
}

pub open spec fn tok_input() -> Seq<u8> {
    seq![105u8, 110, 112, 117, 116]
}

/// What the token list means, mirrored by the executable parser.
pub open spec fn parse_name_spec(name: Seq<u8>) -> Option<InputFileInfo> {
    parse_tokens_spec(tokens_spec(name))
}

/// Decode the reversed token list.
pub open spec fn parse_tokens_spec(ts: Seq<Seq<u8>>) -> Option<InputFileInfo> {
    if ts.len() < 1 {
        None
    } else {
        let ext = ts.last();
        let expect: int = if ext == tok_txt() {
            0
        } else if ext == tok_expect(1) {
            1
        } else if ext == tok_expect(2) {
            2
        } else if ext == tok_expect(3) {
            3
        } else {
            -1
        };
        if expect < 0 || ts.len() < 2 {
            None
        } else {
            parse_after_ext(ts.drop_last(), expect as u64)
        }
    }
}

/// Decode everything before the extension.
pub open spec fn parse_after_ext(ts: Seq<Seq<u8>>, expect: u64) -> Option<InputFileInfo> {
    if ts.len() < 1 {
        None
    } else {
        let t = ts.last();
        if t.len() == 1 && 97 <= t[0] <= 122 {
            // a sub-test letter
            parse_after_idx(ts.drop_last(), expect, (t[0] - 96) as u8)
        } else {
            parse_after_idx(ts, expect, 0)
        }
    }
}

/// Decode everything before any sub-test letter.
pub open spec fn parse_after_idx(ts: Seq<Seq<u8>>, expect: u64, idx: u8) -> Option<
    InputFileInfo,
> {
    if ts.len() < 1 {
        None
    } else {
        let t = ts.last();
        let part_tok = part_of_token(t);
        if expect > 0 {
            // the expect number itself names the part; a part token may
            // still be present and is skipped
            if part_tok > 0 {
                parse_after_part(ts.drop_last(), expect, idx, expect)
            } else {
                parse_after_part(ts, expect, idx, expect)
            }
        } else {
            if part_tok > 0 {
                parse_after_part(ts.drop_last(), expect, idx, part_tok as u64)
            } else {
                parse_after_part(ts, expect, idx, 1)
            }
        }
    }
}

/// `1`, `2` or `3` as a part token, `0` otherwise.
pub open spec fn part_of_token(t: Seq<u8>) -> int {
    if t.len() == 1 && 49 <= t[0] <= 51 {
        t[0] - 48
    } else {
        0
    }
}

/// Decode the optional `sample` marker and the trailing
/// `input-YEAR-DAY` stem.
pub open spec fn parse_after_part(ts: Seq<Seq<u8>>, expect: u64, idx: u8, part: u64) -> Option<
    InputFileInfo,
> {
    if ts.len() < 1 {
        None
    } else {
        let t = ts.last();
        if t == tok_sample() {
            parse_stem(ts.drop_last(), expect, idx, part, true)
        } else {
            parse_stem(ts, expect, idx, part, false)
        }
    }
}

/// Decode `input-YEAR-DAY` from the remaining three tokens.
pub open spec fn parse_stem(
    ts: Seq<Seq<u8>>,
    expect: u64,
    idx: u8,
    part: u64,
    sample: bool,
) -> Option<InputFileInfo> {
    if ts.len() != 3 {
        None
    } else if ts[0] != tok_input() {
        None
    } else {
        let year = dec_of(ts[1]);
        let day = dec_of(ts[2]);
        if year < 0 || day < 0 {
            None
        } else {
            Some(
                InputFileInfo {
                    year: year as u64,
                    day: day as u64,
                    expect,
                    sample,
                    part,
                    idx,
                },
            )
        }
    }
}

/// The decimal value of a token, or a negative value when it is empty,
/// too long or holds a non-digit.
pub open spec fn dec_of(t: Seq<u8>) -> int {
    if 1 <= t.len() <= 8 {
        dec_rec(t, t.len() as int)
    } else {
        -1
    }
}

pub open spec fn dec_rec(t: Seq<u8>, end: int) -> int
    decreases end,
{
    if end <= 0 {
        0
    } else if !(48 <= t[end - 1] <= 57) {
        -1
    } else {
        let rest = dec_rec(t, end - 1);
        if rest < 0 {
            -1
        } else {
            rest * 10 + (t[end - 1] - 48)
        }
    }
}

/// Split a name on `-` and `.`; the tokens come back last-token-first,
/// matching the order the decoder consumes them in.
fn split_tokens(name: &Vec<u8>) -> (r: Vec<Vec<u8>>)
    ensures
        r@.map_values(|t: Vec<u8>| t@) == tokens_spec(name@),
{
    let mut out: Vec<Vec<u8>> = Vec::new();
    let mut end: usize = name.len();
    let ghost total = name@.len() as int;
    loop
        invariant_except_break
            0 <= end <= name@.len(),
            end == name@.len() || is_sep(name@[end as int]),
            tokens_spec(name@) =~= tokens_rec(name@, end as int).add(
                out@.map_values(|t: Vec<u8>| t@).reverse(),
            ),
        ensures
            tokens_spec(name@) =~= out@.map_values(|t: Vec<u8>| t@).reverse(),
        decreases end,
    {
        let mut start = end;
        while start > 0 && !(name[start - 1] == 45 || name[start - 1] == 46)
            invariant
                0 <= start <= end <= name@.len(),
                forall|k: int| start <= k < end ==> !is_sep(#[trigger] name@[k]),
            decreases start,
        {
            start = start - 1;
        }
        proof {
            if start > 0 {
                lemma_token_start_exact(name@, end as int, start as int);
            } else {
                lemma_token_start_exact(name@, end as int, 0);
            }
            lemma_token_start_le(name@, end as int);
        }
        let mut tok: Vec<u8> = Vec::new();
        let mut i = start;
        while i < end
            invariant
                0 <= start <= i <= end <= name@.len(),
                tok@ =~= name@.subrange(start as int, i as int),
            decreases end - i,
        {
            proof {
                assert(name@.subrange(start as int, i + 1).drop_last() =~= name@.subrange(
                    start as int,
                    i as int,
                ));
            }
            tok.push(name[i]);
            i = i + 1;
        }
        let ghost pre_out = out@;
        let ghost tokv = tok@;
        out.push(tok);
        proof {
            assert(tokv =~= name@.subrange(start as int, end as int));
            assert(out@.map_values(|t: Vec<u8>| t@) =~= pre_out.map_values(|t: Vec<u8>| t@).push(
                tokv,
            ));
            assert(out@.map_values(|t: Vec<u8>| t@).reverse() =~= seq![
                name@.subrange(start as int, end as int),
            ].add(pre_out.map_values(|t: Vec<u8>| t@).reverse()));
        }
        if start == 0 {
            proof {
                assert(token_start(name@, end as int) == 0);
                assert(tokens_rec(name@, end as int) =~= seq![name@.subrange(0, end as int)]);
                assert(out@.map_values(|t: Vec<u8>| t@).reverse() =~= tokens_rec(
                    name@,
                    end as int,
                ).add(pre_out.map_values(|t: Vec<u8>| t@).reverse()));
                assert(tokens_spec(name@) =~= out@.map_values(|t: Vec<u8>| t@).reverse());
            }
            break ;
        }
        proof {
            assert(tokens_rec(name@, end as int) =~= tokens_rec(name@, start - 1).push(
                name@.subrange(start as int, end as int),
            ));
            let tk = name@.subrange(start as int, end as int);
            let rest = tokens_rec(name@, start - 1);
            let prev = pre_out.map_values(|t: Vec<u8>| t@).reverse();
            assert(rest.push(tk).add(prev) =~= rest.add(seq![tk].add(prev)));
            assert(out@.map_values(|t: Vec<u8>| t@).reverse() =~= seq![tk].add(prev));
            assert(tokens_spec(name@) =~= tokens_rec(name@, end as int).add(prev));
            assert(tokens_spec(name@) =~= rest.push(tk).add(prev));
            assert(tokens_spec(name@) =~= rest.add(
                out@.map_values(|t: Vec<u8>| t@).reverse(),
            ));
            assert(is_sep(name@[start - 1]));
        }
        end = start - 1;
    }
    // the reversed-push order leaves the earliest token last
    let mut rev: Vec<Vec<u8>> = Vec::new();
    let mut i: usize = out.len();
    while i > 0
        invariant
            0 <= i <= out@.len(),
            rev@.len() == out@.len() - i,
            forall|k: int|
                0 <= k < rev@.len() ==> (#[trigger] rev@[k])@ == out@[out@.len() - 1 - k]@,
        decreases i,
    {
        i = i - 1;
        let mut tok: Vec<u8> = Vec::new();
        let mut j: usize = 0;
        let tlen = out[i].len();
        while j < tlen
            invariant
                0 <= j <= tlen,
                i < out@.len(),
                tlen == out@[i as int]@.len(),
                tok@ =~= out@[i as int]@.take(j as int),
            decreases tlen - j,
        {
            tok.push(out[i][j]);
            j = j + 1;
        }
        proof {
            assert(out@[i as int]@.take(tlen as int) =~= out@[i as int]@);
        }
        rev.push(tok);
    }
    proof {
        assert(rev@.map_values(|t: Vec<u8>| t@) =~= out@.map_values(|t: Vec<u8>| t@).reverse());
    }
    rev
}

/// A token start lies within the scanned prefix.
proof fn lemma_token_start_le(name: Seq<u8>, e: int)
    requires
        0 <= e <= name.len(),
    ensures
        0 <= token_start(name, e) <= e,
    decreases e,
{
    if e > 0 && !is_sep(name[e - 1]) {
        lemma_token_start_le(name, e - 1);
    }
}

/// Positions after the token start and before `end` are not separators.
proof fn lemma_token_start_skip(name: Seq<u8>, end: int, start: int)
    requires
        0 < start <= end <= name.len(),
        !is_sep(name[start - 1]),
        forall|k: int| start <= k < end ==> !is_sep(#[trigger] name[k]),
    ensures
        token_start(name, end) <= start - 1,
    decreases end - start,
{
    if start == end {
        assert(token_start(name, end) == token_start(name, end - 1));
        lemma_token_start_le(name, end - 1);
    } else {
        assert(!is_sep(name[end - 1]));
        lemma_token_start_skip(name, end - 1, start);
        assert(token_start(name, end) == token_start(name, end - 1));
    }
}

/// When the scan stops, it has found exactly the token start.
proof fn lemma_token_start_exact(name: Seq<u8>, end: int, start: int)
    requires
        0 <= start <= end <= name.len(),
        start == 0 || is_sep(name[start - 1]),
        forall|k: int| start <= k < end ==> !is_sep(#[trigger] name[k]),
    ensures
        token_start(name, end) == start,
    decreases end - start,
{
    if end == start {
        if start > 0 {
            assert(token_start(name, end) == end);
        }
    } else {
        assert(!is_sep(name[end - 1]));
        lemma_token_start_exact(name, end - 1, start);
    }
}

/// Decode the token list, consuming from its end.
fn parse_tokens(parts: &mut Vec<Vec<u8>>) -> (r: Option<InputFileInfo>)
    ensures
        r == parse_tokens_spec(old(parts)@.map_values(|t: Vec<u8>| t@)),
{
    let ghost ts0 = parts@.map_values(|t: Vec<u8>| t@);
    let ext = parts.pop();
    let expect: u64;
    match ext {
        None => {
            return None;
        }
        Some(e) => {
            proof {
                assert(ts0.last() == e@);
                assert(parts@.map_values(|t: Vec<u8>| t@) =~= ts0.drop_last());
            }
            if eq_word(&e, &word_txt()) {
                expect = 0;
            } else if eq_word(&e, &word_expect(1)) {
                expect = 1;
            } else if eq_word(&e, &word_expect(2)) {
                expect = 2;
            } else if eq_word(&e, &word_expect(3)) {
                expect = 3;
            } else {
                return None;
            }
        }
    }
    if parts.len() == 0 {
        return None;
    }
    let ghost ts1 = parts@.map_values(|t: Vec<u8>| t@);
    // a single lower-case letter marks a sub-test
    let idx: u8;
    let llen = parts[parts.len() - 1].len();
    let lb: u8 = if llen == 1 {
        parts[parts.len() - 1][0]
    } else {
        0
    };
    if llen == 1 && 97 <= lb && lb <= 122 {
        let t = parts.pop();
        match t {
            Some(t) => {
                idx = t[0] - 96;
            }
            None => {
                return None;
            }
        }
    } else {
        idx = 0;
    }
    proof {
        if ts1.last().len() == 1 && 97 <= ts1.last()[0] <= 122 {
            assert(parts@.map_values(|t: Vec<u8>| t@) =~= ts1.drop_last());
        }
    }
    if parts.len() == 0 {
        return None;
    }
    let ghost ts2 = parts@.map_values(|t: Vec<u8>| t@);
    // an explicit part number
    let mut part: u64 = if expect > 0 {
        expect
    } else {
        1
    };
    let plen = parts[parts.len() - 1].len();
    let pb: u8 = if plen == 1 {
        parts[parts.len() - 1][0]
    } else {
        0
    };
    let part_tok: u64 = if plen == 1 && 49 <= pb && pb <= 51 {
        (pb - 48) as u64
    } else {
        0
    };
    if part_tok > 0 {
        let _ = parts.pop();
        if expect == 0 {
            part = part_tok;
        }
        proof {
            assert(parts@.map_values(|t: Vec<u8>| t@) =~= ts2.drop_last());
        }
    }
    if parts.len() == 0 {
        return None;
    }
    let ghost ts3 = parts@.map_values(|t: Vec<u8>| t@);
    // the sample marker
    let sample: bool;
    let is_sample = eq_word(&parts[parts.len() - 1], &word_sample());
    if is_sample {
        let _ = parts.pop();
        sample = true;
        proof {
            assert(parts@.map_values(|t: Vec<u8>| t@) =~= ts3.drop_last());
        }
    } else {
        sample = false;
    }
    // the stem: exactly `input`, the year and the day
    if parts.len() != 3 {
        return None;
    }
    if !eq_word(&parts[0], &word_input()) {
        return None;
    }
    let year = parse_dec(&parts[1]);
    let day = parse_dec(&parts[2]);
    match (year, day) {
        (Some(year), Some(day)) => Some(
            InputFileInfo { year, day, expect, sample, part, idx },
        ),
        _ => None,
    }
}

/// Compare a token against one of the scheme's fixed words.
fn eq_word(t: &Vec<u8>, word: &Vec<u8>) -> (r: bool)
    ensures
        r == (t@ == word@),
{
    if t.len() != word.len() {
        proof {
            assert(t@ != word@);
        }
        return false;
    }
    let mut i: usize = 0;
    while i < t.len()
        invariant
            t@.len() == word@.len(),
            0 <= i <= t@.len(),
            forall|k: int| 0 <= k < i ==> t@[k] == word@[k],
        decreases t@.len() - i,
    {
        if t[i] != word[i] {
            proof {
                assert(t@[i as int] != word@[i as int]);
            }
            return false;
        }
        i = i + 1;
    }
    proof {
        assert(t@ =~= word@);
    }
    true
}

fn word_txt() -> (r: Vec<u8>)
    ensures
        r@ =~= tok_txt(),
{
    let mut r: Vec<u8> = Vec::new();
    r.push(116);
    r.push(120);
    r.push(116);
    r
}

fn word_expect(n: u8) -> (r: Vec<u8>)
    requires
        1 <= n <= 3,
    ensures
        r@ =~= tok_expect(n),
{
    let mut r: Vec<u8> = Vec::new();
    r.push(101);
    r.push(120);
    r.push(112);
    r.push(101);
    r.push(99);
    r.push(116);
    r.push(48 + n);
    r
}

fn word_sample() -> (r: Vec<u8>)
    ensures
        r@ =~= tok_sample(),
{
    let mut r: Vec<u8> = Vec::new();
    r.push(115);
    r.push(97);
    r.push(109);
    r.push(112);
    r.push(108);
    r.push(101);
    r
}

fn word_input() -> (r: Vec<u8>)
    ensures
        r@ =~= tok_input(),
{
    let mut r: Vec<u8> = Vec::new();
    r.push(105);
    r.push(110);
    r.push(112);
    r.push(117);
    r.push(116);
    r
}

pub open spec fn pow10_spec(e: int) -> int
    decreases e,
{
    if e <= 0 {
        1
    } else {
        10 * pow10_spec(e - 1)
    }
}

/// A valid decimal stays below its digit budget.
proof fn lemma_dec_rec_bound(t: Seq<u8>, e: int)
    requires
        e <= t.len(),
    ensures
        dec_rec(t, e) < pow10_spec(e),
    decreases e,
{
    if e > 0 {
        lemma_dec_rec_bound(t, e - 1);
        if 48 <= t[e - 1] <= 57 && dec_rec(t, e - 1) >= 0 {
            assert(dec_rec(t, e) == dec_rec(t, e - 1) * 10 + (t[e - 1] - 48));
            assert(dec_rec(t, e - 1) * 10 <= (pow10_spec(e - 1) - 1) * 10) by (nonlinear_arith)
                requires
                    dec_rec(t, e - 1) <= pow10_spec(e - 1) - 1,
            ;
        }
    }
}

proof fn lemma_pow10_mono(a: int, b: int)
    requires
        a <= b,
    ensures
        pow10_spec(a) <= pow10_spec(b),
    decreases b - a,
{
    if a < b && b > 0 {
        lemma_pow10_mono(a, b - 1);
        assert(pow10_spec(b) == 10 * pow10_spec(b - 1));
        assert(pow10_spec(b - 1) >= 1) by {
            lemma_pow10_pos(b - 1);
        }
    }
}

proof fn lemma_pow10_pos(e: int)
    ensures
        pow10_spec(e) >= 1,
    decreases e,
{
    if e > 0 {
        lemma_pow10_pos(e - 1);
    }
}

/// Decode a short decimal token.
fn parse_dec(t: &Vec<u8>) -> (r: Option<u64>)
    ensures
        dec_of(t@) >= 0 <==> r is Some,
        r matches Some(v) ==> v == dec_of(t@),
{
    if t.len() < 1 || t.len() > 8 {
        return None;
    }
    let mut v: u64 = 0;
    let mut i: usize = 0;
    while i < t.len()
        invariant
            1 <= t@.len() <= 8,
            0 <= i <= t@.len(),
            dec_rec(t@, i as int) >= 0,
            v == dec_rec(t@, i as int),
        decreases t@.len() - i,
    {
        let b = t[i];
        if b < 48 || b > 57 {
            proof {
                lemma_dec_rec_bad(t@, t@.len() as int, i as int);
            }
            return None;
        }
        proof {
            lemma_dec_rec_bound(t@, i as int);
            lemma_pow10_mono(i as int, 7);
            assert(pow10_spec(7) == 10000000) by {
                assert(pow10_spec(0) == 1);
                assert(pow10_spec(1) == 10);
                assert(pow10_spec(2) == 100);
                assert(pow10_spec(3) == 1000);
                assert(pow10_spec(4) == 10000);
                assert(pow10_spec(5) == 100000);
                assert(pow10_spec(6) == 1000000);
            }
            assert(v < 10000000);
        }
        v = v * 10 + ((b - 48) as u64);
        i = i + 1;
        proof {
            assert(dec_rec(t@, i as int) == dec_rec(t@, i - 1) * 10 + (t@[i - 1] - 48));
        }
    }
    Some(v)
}

/// One bad digit spoils the whole token.
proof fn lemma_dec_rec_bad(t: Seq<u8>, end: int, bad: int)
    requires
        0 <= bad < end <= t.len(),
        !(48 <= t[bad] <= 57),
    ensures
        dec_rec(t, end) < 0,
    decreases end,
{
    if bad < end - 1 {
        lemma_dec_rec_bad(t, end - 1, bad);
    }
}

} // verus!
