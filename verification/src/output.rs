//! Run reporting: a console sink that can print, capture into a
//! buffer, or swallow output, prefixing every line with the run's
//! year-day-part label.

use vstd::prelude::*;

verus! {

/// Which run a line of output belongs to.
#[derive(Clone, Copy, Debug, PartialEq, Eq, Structural)]
pub struct YearDayPart {
    pub year: u64,
    pub day: u64,
    pub part: u64,
}

/// The decimal digits of `n`, most significant first.
pub open spec fn dec_digits(n: nat) -> Seq<u8>
    decreases n,
{
    if n < 10 {
        seq![(48 + n) as u8]
    } else {
        dec_digits(n / 10).push((48 + n % 10) as u8)
    }
}

/// The digits of a day, padded to two places.
pub open spec fn day_digits(n: nat) -> Seq<u8> {
    if n < 10 {
        seq![48u8, (48 + n) as u8]
    } else {
        dec_digits(n)
    }
}

/// `"YEAR-DD Part P"` as bytes.
pub open spec fn label_spec(ydp: YearDayPart) -> Seq<u8> {
    dec_digits(ydp.year as nat) + seq![45u8] + day_digits(ydp.day as nat) + seq![
        32u8, 80, 97, 114, 116, 32,
    ] + dec_digits(ydp.part as nat)
}

impl YearDayPart {
    pub fn new(year: u64, day: u64, part: u64) -> (r: Self)
        ensures
            r == (YearDayPart { year, day, part }),
    {
        YearDayPart { year, day, part }
    }

    /// The run's label, rendered as bytes.
    pub fn label(&self) -> (r: Vec<u8>)
        ensures
            r@ == label_spec(*self),
    {
        let mut r = dec_bytes(self.year);
        r.push(45);
        if self.day < 10 {
            r.push(48);
            r.push(48 + (self.day as u8));
        } else {
            let mut d = dec_bytes(self.day);
            let mut i: usize = 0;
            let dl = d.len();
            while i < dl
                invariant
                    0 <= i <= dl,
                    dl == d@.len(),
                    r@ =~= dec_digits(self.year as nat) + seq![45u8] + d@.take(i as int),
                decreases dl - i,
            {
                r.push(d[i]);
                i = i + 1;
            }
            proof {
                assert(d@.take(dl as int) =~= d@);
            }
        }
        r.push(32);
        r.push(80);
        r.push(97);
        r.push(114);
        r.push(116);
        r.push(32);
        let p = dec_bytes(self.part);
        let mut i: usize = 0;
        let pl = p.len();
        let ghost mid = r@;
        while i < pl
            invariant
                0 <= i <= pl,
                pl == p@.len(),
                r@ =~= mid + p@.take(i as int),
            decreases pl - i,
        {
            r.push(p[i]);
            i = i + 1;
        }
        proof {
            assert(p@.take(pl as int) =~= p@);
            assert(r@ =~= label_spec(*self));
        }
        r
    }
}

/// The decimal rendering of a machine word.
fn dec_bytes(n: u64) -> (r: Vec<u8>)
    ensures
        r@ == dec_digits(n as nat),
        r@.len() >= 1,
    decreases n,
{
    if n < 10 {
        let mut r: Vec<u8> = Vec::new();
        r.push(48 + (n as u8));
        proof {
            assert(r@ =~= dec_digits(n as nat));
        }
        r
    } else {
        let mut r = dec_bytes(n / 10);
        r.push(48 + ((n % 10) as u8));
        r
    }
}

/// What one input byte adds to the rendered stream: a newline passes
/// through; any other byte is preceded by the label prefix when it
/// starts a fresh line.
pub open spec fn step_bytes(prefix: Seq<u8>, nl: bool, b: u8) -> Seq<u8> {
    if b == 10 {
        seq![10u8]
    } else if nl {
        prefix + seq![b]
    } else {
        seq![b]
    }
}

/// The fresh-line flag after one byte.
pub open spec fn step_nl(nl: bool, b: u8) -> bool {
    b == 10
}

/// The rendering of the first `i` bytes of `s`.
pub open spec fn render_upto(prefix: Seq<u8>, nl0: bool, s: Seq<u8>, i: int) -> Seq<u8>
    decreases i,
{
    if i <= 0 {
        Seq::empty()
    } else {
        render_upto(prefix, nl0, s, i - 1) + step_bytes(prefix, nl_upto(nl0, s, i - 1), s[i - 1])
    }
}

/// The fresh-line flag after the first `i` bytes of `s`.
pub open spec fn nl_upto(nl0: bool, s: Seq<u8>, i: int) -> bool
    decreases i,
{
    if i <= 0 {
        nl0
    } else {
        step_nl(nl_upto(nl0, s, i - 1), s[i - 1])
    }
}

/// Where a run's output goes.
pub enum Mode {
    NoOutput,
    Stdout { ydp: YearDayPart, new_line: bool },
    Capture { ydp: YearDayPart, new_line: bool, capture: Vec<u8> },
}

/// The console sink.
pub struct Output {
    pub mode: Mode,
}

impl Mode {
    /// The captured bytes, when capturing and non-empty.
    pub fn get_capture(&self) -> (r: Option<Vec<u8>>)
        ensures
            match *self {
                Mode::Capture { capture, .. } => {
                    &&& capture@.len() == 0 ==> r is None
                    &&& capture@.len() > 0 ==> (r matches Some(c) && c@ == capture@)
                },
                _ => r is None,
            },
    {
        match self {
            Mode::NoOutput | Mode::Stdout { .. } => None,
            Mode::Capture { capture, .. } => {
                if capture.len() == 0 {
                    None
                } else {
                    let mut c: Vec<u8> = Vec::new();
                    let mut i: usize = 0;
                    while i < capture.len()
                        invariant
                            0 <= i <= capture@.len(),
                            c@ =~= capture@.take(i as int),
                        decreases capture@.len() - i,
                    {
                        c.push(capture[i]);
                        i = i + 1;
                    }
                    proof {
                        assert(capture@.take(capture@.len() as int) =~= capture@);
                    }
                    Some(c)
                }
            }
        }
    }

    /// Point the sink at a new run, clearing any capture.
    pub fn reset(&mut self, ydp: YearDayPart)
        ensures
            match *old(self) {
                Mode::NoOutput => *final(self) == Mode::NoOutput,
                Mode::Stdout { .. } => *final(self) == (Mode::Stdout { ydp, new_line: true }),
                Mode::Capture { .. } => {
                    (*final(self)) matches Mode::Capture { ydp: y2, new_line: nl2, capture: c2 }
                        && y2 == ydp && nl2 && c2@.len() == 0
                },
            },
    {
        match self {
            Mode::NoOutput => {
            }
            Mode::Stdout { ydp: slot, new_line } => {
                *slot = ydp;
                *new_line = true;
            }
            Mode::Capture { ydp: slot, new_line, capture } => {
                *slot = ydp;
                *new_line = true;
                capture.clear();
            }
        }
    }

    /// Append bytes, prefixing fresh lines with the run's label.
    pub fn write_bytes(&mut self, s: &Vec<u8>)
        ensures
            match *old(self) {
                Mode::NoOutput => *final(self) == Mode::NoOutput,
                Mode::Stdout { ydp, new_line } => {
                    (*final(self)) matches Mode::Stdout { ydp: y2, new_line: nl2 } && y2 == ydp
                        && nl2 == nl_upto(new_line, s@, s@.len() as int)
                },
                Mode::Capture { ydp, new_line, capture } => {
                    (*final(self)) matches Mode::Capture { ydp: y2, new_line: nl2, capture: c2 }
                        && y2 == ydp && nl2 == nl_upto(new_line, s@, s@.len() as int) && c2@
                        == capture@ + render_upto(
                        label_spec(ydp) + seq![58u8, 32],
                        new_line,
                        s@,
                        s@.len() as int,
                    )
                },
            },
    {
        match self {
            Mode::NoOutput => {
            }
            Mode::Stdout { ydp, new_line } => {
                let mut prefix = ydp.label();
                prefix.push(58);
                prefix.push(32);
                let (rendered, nl) = render_bytes(&prefix, *new_line, s);
                emit(&rendered);
                *new_line = nl;
            }
            Mode::Capture { ydp, new_line, capture } => {
                let mut prefix = ydp.label();
                prefix.push(58);
                prefix.push(32);
                proof {
                    assert(prefix@ =~= label_spec(*ydp) + seq![58u8, 32]);
                }
                let (mut rendered, nl) = render_bytes(&prefix, *new_line, s);
                let ghost pre = capture@;
                let mut i: usize = 0;
                let rl = rendered.len();
                while i < rl
                    invariant
                        0 <= i <= rl,
                        rl == rendered@.len(),
                        capture@ =~= pre + rendered@.take(i as int),
                    decreases rl - i,
                {
                    capture.push(rendered[i]);
                    i = i + 1;
                }
                proof {
                    assert(rendered@.take(rl as int) =~= rendered@);
                }
                *new_line = nl;
            }
        }
    }

    /// Finish the current line if one is open.
    pub fn ensure_nl(&mut self)
        ensures
            match *old(self) {
                Mode::NoOutput => *final(self) == Mode::NoOutput,
                Mode::Stdout { ydp, new_line } => {
                    (*final(self)) matches Mode::Stdout { ydp: y2, new_line: nl2 } && y2 == ydp && nl2
                },
                Mode::Capture { ydp, new_line, capture } => {
                    (*final(self)) matches Mode::Capture { ydp: y2, new_line: nl2, capture: c2 }
                        && y2 == ydp && nl2 && c2@ == (if new_line {
                        capture@
                    } else {
                        capture@ + seq![10u8]
                    })
                },
            },
    {
        match self {
            Mode::NoOutput => {
            }
            Mode::Stdout { new_line, .. } => {
                if !*new_line {
                    let mut nlv: Vec<u8> = Vec::new();
                    nlv.push(10);
                    emit(&nlv);
                    *new_line = true;
                }
            }
            Mode::Capture { new_line, capture, .. } => {
                if !*new_line {
                    capture.push(10);
                    *new_line = true;
                }
            }
        }
    }
}

impl Output {
    pub fn start_run(&mut self, ydp: YearDayPart)
        ensures
            match old(self).mode {
                Mode::NoOutput => final(self).mode == Mode::NoOutput,
                Mode::Stdout { .. } => final(self).mode == (Mode::Stdout {
                    ydp,
                    new_line: true,
                }),
                Mode::Capture { .. } => {
                    (final(self).mode) matches Mode::Capture {
                        ydp: y2,
                        new_line: nl2,
                        capture: c2,
                    } && y2 == ydp && nl2 && c2@.len() == 0
                },
            },
    {
        self.mode.reset(ydp);
    }

    /// Finish the current line if one is open.
    pub fn ensure_nl(&mut self)
        ensures
            match old(self).mode {
                Mode::NoOutput => final(self).mode == Mode::NoOutput,
                Mode::Stdout { ydp, new_line } => {
                    (final(self).mode) matches Mode::Stdout { ydp: y2, new_line: nl2 } && y2 == ydp
                        && nl2
                },
                Mode::Capture { ydp, new_line, capture } => {
                    (final(self).mode) matches Mode::Capture { ydp: y2, new_line: nl2, capture: c2 }
                        && y2 == ydp && nl2 && c2@ == (if new_line {
                        capture@
                    } else {
                        capture@ + seq![10u8]
                    })
                },
            },
    {
        self.mode.ensure_nl();
    }

    pub fn get_capture(&self) -> (r: Option<Vec<u8>>)
        ensures
            match self.mode {
                Mode::Capture { capture, .. } => {
                    &&& capture@.len() == 0 ==> r is None
                    &&& capture@.len() > 0 ==> (r matches Some(c) && c@ == capture@)
                },
                _ => r is None,
            },
    {
        self.mode.get_capture()
    }

    /// Send output straight to the console.
    pub fn stdout(&mut self)
        ensures
            final(self).mode == (Mode::Stdout {
                ydp: YearDayPart { year: 0, day: 0, part: 0 },
                new_line: true,
            }),
    {
        self.mode = Mode::Stdout { ydp: YearDayPart { year: 0, day: 0, part: 0 }, new_line: true };
    }

    /// Capture output into a buffer.
    pub fn capture(&mut self)
        ensures
            (final(self).mode) matches Mode::Capture { ydp, new_line, capture } && ydp == (
            YearDayPart { year: 0, day: 0, part: 0 }) && new_line && capture@.len() == 0,
    {
        self.mode = Mode::Capture {
            ydp: YearDayPart { year: 0, day: 0, part: 0 },
            new_line: true,
            capture: Vec::new(),
        };
    }

    /// Swallow output.
    pub fn no_output(&mut self)
        ensures
            final(self).mode == Mode::NoOutput,
    {
        self.mode = Mode::NoOutput;
    }
}

/// Render input bytes against a line prefix.
fn render_bytes(prefix: &Vec<u8>, nl0: bool, s: &Vec<u8>) -> (r: (Vec<u8>, bool))
    ensures
        r.0@ == render_upto(prefix@, nl0, s@, s@.len() as int),
        r.1 == nl_upto(nl0, s@, s@.len() as int),
{
    let mut out: Vec<u8> = Vec::new();
    let mut nl = nl0;
    let mut i: usize = 0;
    while i < s.len()
        invariant
            0 <= i <= s@.len(),
            out@ =~= render_upto(prefix@, nl0, s@, i as int),
            nl == nl_upto(nl0, s@, i as int),
        decreases s@.len() - i,
    {
        let b = s[i];
        if b == 10 {
            out.push(10);
            nl = true;
        } else {
            if nl {
                let mut j: usize = 0;
                let pl = prefix.len();
                let ghost mid = out@;
                while j < pl
                    invariant
                        0 <= j <= pl,
                        pl == prefix@.len(),
                        out@ =~= mid + prefix@.take(j as int),
                    decreases pl - j,
                {
                    out.push(prefix[j]);
                    j = j + 1;
                }
                proof {
                    assert(prefix@.take(pl as int) =~= prefix@);
                }
                nl = false;
            }
            out.push(b);
        }
        i = i + 1;
        proof {
            assert(out@ =~= render_upto(prefix@, nl0, s@, i as int));
        }
    }
    (out, nl)
}

/// Relies on `std::io::Write::write_all` on the process's standard
/// output; printing has no observable effect the contracts speak of.
#[verifier::external_body]
fn emit(bytes: &Vec<u8>)
{
    let _ = std::io::Write::write_all(&mut std::io::stdout().lock(), bytes);
}

} // verus!
