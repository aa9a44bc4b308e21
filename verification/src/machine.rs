//! The reformatting state machine and the filter built on it.

use vstd::prelude::*;

use crate::laws::{lemma_run_append, lemma_run_single};

verus! {

/// An open brace.
pub const OPEN: u8 = 123;

/// A close brace.
pub const CLOSE: u8 = 125;

/// A line feed, the one newline the filter emits.
pub const NL: u8 = 10;

/// A carriage return; on input it is normalized to a line feed.
pub const CR: u8 = 13;

/// A tab, the indentation unit.
pub const TAB: u8 = 9;

/// Cursor state of the transducer: whether the indentation for the
/// current output line has been emitted yet.
#[derive(Clone, Copy, Debug, PartialEq, Eq, Structural)]
pub enum Mode {
    /// Nothing has been written on the current output line.
    LineStart,
    /// Content has started on the current output line.
    MidLine,
}

/// The error reported when a `}` arrives while no block is open.
#[derive(Clone, Copy, Debug, PartialEq, Eq, Structural)]
pub struct UnbalancedBraces;

/// What a run of the transducer yields: whether it succeeded, the
/// machine state it reached, and the bytes it emitted. When `ok` is
/// false, `mode`, `depth` and `out` describe the state reached and the
/// bytes emitted before the unmatched close brace; the filter itself
/// then discards them and leaves its state untouched.
#[verifier::ext_equal]
pub ghost struct Outcome {
    pub ok: bool,
    pub mode: Mode,
    pub depth: nat,
    pub out: Seq<u8>,
}

/// The bytes the machine treats as whitespace: the ASCII whitespace
/// characters. Bytes at or above 0x80 are opaque content and are never
/// taken for whitespace, braces or newlines, so any ASCII-clean
/// multi-byte encoding passes through unharmed.
pub open spec fn is_ws(b: u8) -> bool {
    b == TAB || b == NL || b == 11 || b == 12 || b == CR || b == 32
}

/// `n` tabs: the indentation of a line nested `n` blocks deep.
pub open spec fn tabs(n: nat) -> Seq<u8> {
    Seq::new(n, |i: int| TAB)
}

/// The outcome of an unmatched close brace: nothing is emitted for the
/// offending byte and the state before it is reported.
pub open spec fn failure(mode: Mode, depth: nat) -> Outcome {
    Outcome { ok: false, mode, depth, out: Seq::empty() }
}

/// One input byte, consumed in full. A byte that the machine first
/// examines without consuming (content seen at line start, a brace seen
/// mid-line) is re-examined under the new mode within this same step,
/// so both micro-steps appear here collapsed.
pub open spec fn spec_step(mode: Mode, depth: nat, b: u8) -> Outcome {
    match mode {
        Mode::LineStart => {
            if b == OPEN {
                Outcome {
                    ok: true,
                    mode: Mode::LineStart,
                    depth: depth + 1,
                    out: tabs(depth) + seq![OPEN, NL],
                }
            } else if b == CLOSE {
                if depth == 0 {
                    failure(mode, depth)
                } else {
                    Outcome {
                        ok: true,
                        mode: Mode::LineStart,
                        depth: (depth - 1) as nat,
                        out: tabs((depth - 1) as nat) + seq![CLOSE, NL],
                    }
                }
            } else if is_ws(b) {
                Outcome { ok: true, mode: Mode::LineStart, depth, out: Seq::empty() }
            } else {
                Outcome { ok: true, mode: Mode::MidLine, depth, out: tabs(depth).push(b) }
            }
        }
        Mode::MidLine => {
            if b == NL || b == CR {
                Outcome { ok: true, mode: Mode::LineStart, depth, out: seq![NL] }
            } else if b == OPEN {
                Outcome {
                    ok: true,
                    mode: Mode::LineStart,
                    depth: depth + 1,
                    out: seq![NL] + tabs(depth) + seq![OPEN, NL],
                }
            } else if b == CLOSE {
                if depth == 0 {
                    failure(mode, depth)
                } else {
                    Outcome {
                        ok: true,
                        mode: Mode::LineStart,
                        depth: (depth - 1) as nat,
                        out: seq![NL] + tabs((depth - 1) as nat) + seq![CLOSE, NL],
                    }
                }
            } else {
                Outcome { ok: true, mode: Mode::MidLine, depth, out: seq![b] }
            }
        }
    }
}

/// The transducer run over a whole byte sequence from a given state,
/// one byte after the other. It stops at an unmatched close brace.
pub open spec fn spec_run(mode: Mode, depth: nat, input: Seq<u8>) -> Outcome
    decreases input.len(),
{
    if input.len() == 0 {
        Outcome { ok: true, mode, depth, out: Seq::empty() }
    } else {
        let first = spec_step(mode, depth, input[0]);
        if !first.ok {
            failure(mode, depth)
        } else {
            let rest = spec_run(first.mode, first.depth, input.skip(1));
            Outcome { ok: rest.ok, mode: rest.mode, depth: rest.depth, out: first.out + rest.out }
        }
    }
}

/// Whitespace test on one byte, matching [`is_ws`].
pub fn is_ws_byte(b: u8) -> (r: bool)
    ensures
        r == is_ws(b),
{
    b == TAB || b == NL || b == 11 || b == 12 || b == CR || b == 32
}

/// Pushes one tab per depth unit: the indentation of a line at `depth`.
pub fn indent(out: &mut Vec<u8>, depth: usize)
    ensures
        final(out)@ == old(out)@ + tabs(depth as nat),
{
    let ghost base = out@;
    let mut i: usize = 0;
    while i < depth
        invariant
            i <= depth,
            out@ == base + tabs(i as nat),
        decreases depth - i,
    {
        out.push(TAB);
        proof {
            assert(tabs((i + 1) as nat) =~= tabs(i as nat).push(TAB));
            assert(out@ =~= base + tabs((i + 1) as nat));
        }
        i = i + 1;
    }
}

/// One byte of input run through the state machine: appends the bytes
/// the machine emits for it to `out` and returns the mode and depth it
/// moves to, or [`UnbalancedBraces`] for an unmatched `}`, in which
/// case `out` is left untouched.
pub fn step(mode: Mode, depth: usize, b: u8, out: &mut Vec<u8>) -> (r: Result<
    (Mode, usize),
    UnbalancedBraces,
>)
    requires
        depth < usize::MAX,
    ensures
        ({
            let t = spec_step(mode, depth as nat, b);
            match r {
                Ok(next) => t.ok && next.0 == t.mode && next.1 as nat == t.depth && final(out)@
                    == old(out)@ + t.out,
                Err(_) => !t.ok && final(out)@ == old(out)@,
            }
        }),
{
    let ghost base = out@;
    let ghost t = spec_step(mode, depth as nat, b);
    match mode {
        Mode::LineStart => {
            if b == OPEN {
                indent(out, depth);
                out.push(OPEN);
                out.push(NL);
                proof {
                    assert(out@ =~= base + (tabs(depth as nat) + seq![OPEN, NL]));
                }
                Ok((Mode::LineStart, depth + 1))
            } else if b == CLOSE {
                if depth == 0 {
                    Err(UnbalancedBraces)
                } else {
                    indent(out, depth - 1);
                    out.push(CLOSE);
                    out.push(NL);
                    proof {
                        assert(out@ =~= base + (tabs((depth - 1) as nat) + seq![CLOSE, NL]));
                    }
                    Ok((Mode::LineStart, depth - 1))
                }
            } else if is_ws_byte(b) {
                Ok((Mode::LineStart, depth))
            } else {
                indent(out, depth);
                out.push(b);
                proof {
                    assert(out@ =~= base + tabs(depth as nat).push(b));
                }
                Ok((Mode::MidLine, depth))
            }
        }
        Mode::MidLine => {
            if b == NL || b == CR {
                out.push(NL);
                proof {
                    assert(out@ =~= base + seq![NL]);
                }
                Ok((Mode::LineStart, depth))
            } else if b == OPEN {
                out.push(NL);
                indent(out, depth);
                out.push(OPEN);
                out.push(NL);
                proof {
                    assert(out@ =~= base + (seq![NL] + tabs(depth as nat) + seq![OPEN, NL]));
                }
                Ok((Mode::LineStart, depth + 1))
            } else if b == CLOSE {
                if depth == 0 {
                    Err(UnbalancedBraces)
                } else {
                    out.push(NL);
                    indent(out, depth - 1);
                    out.push(CLOSE);
                    out.push(NL);
                    proof {
                        assert(out@ =~= base + (seq![NL] + tabs((depth - 1) as nat) + seq![
                            CLOSE,
                            NL,
                        ]));
                    }
                    Ok((Mode::LineStart, depth - 1))
                }
            } else {
                out.push(b);
                proof {
                    assert(out@ =~= base + seq![b]);
                }
                Ok((Mode::MidLine, depth))
            }
        }
    }
}

/// The reformatting filter's persistent state: the brace-nesting depth
/// and the cursor mode. Both survive across calls of [`write`], so a
/// document may be fed in chunks cut at any byte offset and the output
/// is the same as for one single call.
///
/// [`write`]: BraceWriter::write
pub struct BraceWriter {
    mode: Mode,
    depth: usize,
}

impl BraceWriter {
    /// The cursor mode, for contracts.
    pub closed spec fn mode_spec(&self) -> Mode {
        self.mode
    }

    /// The nesting depth, for contracts.
    pub closed spec fn depth_spec(&self) -> nat {
        self.depth as nat
    }

    /// A fresh filter: no open blocks, cursor at the start of a line.
    pub fn new() -> (w: BraceWriter)
        ensures
            w.mode_spec() == Mode::LineStart,
            w.depth_spec() == 0,
    {
        BraceWriter { mode: Mode::LineStart, depth: 0 }
    }

    /// The current nesting depth: `{`s seen and not yet closed.
    pub fn depth(&self) -> (d: usize)
        ensures
            d as nat == self.depth_spec(),
    {
        self.depth
    }

    /// Reformats one chunk. On success every input byte has been
    /// consumed and the returned bytes are exactly what the machine
    /// emits for the chunk from the filter's state, which advances to
    /// the state the machine reached. An unmatched `}` is refused as
    /// [`UnbalancedBraces`]; the filter's state is then unchanged, so
    /// the error is recoverable and later calls go on as if the bad
    /// chunk had never been offered.
    #[verifier::loop_isolation(false)]
    pub fn write(&mut self, buf: &[u8]) -> (r: Result<Vec<u8>, UnbalancedBraces>)
        requires
            old(self).depth_spec() + buf@.len() <= usize::MAX,
        ensures
            ({
                let t = spec_run(old(self).mode_spec(), old(self).depth_spec(), buf@);
                match r {
                    Ok(out) => t.ok && out@ == t.out && final(self).mode_spec() == t.mode
                        && final(self).depth_spec() == t.depth,
                    Err(_) => !t.ok && final(self).mode_spec() == old(self).mode_spec()
                        && final(self).depth_spec() == old(self).depth_spec(),
                }
            }),
    {
        let ghost m0 = self.mode;
        let ghost d0 = self.depth as nat;
        let mut mode = self.mode;
        let mut depth = self.depth;
        let mut out: Vec<u8> = Vec::new();
        let mut i: usize = 0;
        while i < buf.len()
            invariant
                i <= buf@.len(),
                d0 + buf@.len() <= usize::MAX,
                depth as nat <= d0 + i,
                spec_run(m0, d0, buf@.take(i as int)) == (Outcome {
                    ok: true,
                    mode: mode,
                    depth: depth as nat,
                    out: out@,
                }),
            decreases buf@.len() - i,
        {
            let b = buf[i];
            let ghost pm = mode;
            let ghost pd = depth as nat;
            let ghost pout = out@;
            proof {
                lemma_run_append(m0, d0, buf@.take(i as int), seq![b]);
                assert(buf@.take(i as int) + seq![b] =~= buf@.take(i + 1));
                lemma_run_single(pm, pd, b);
            }
            match step(mode, depth, b, &mut out) {
                Ok(next) => {
                    mode = next.0;
                    depth = next.1;
                    proof {
                        let s = spec_step(pm, pd, b);
                        assert(s.depth <= pd + 1);
                        assert(pout + s.out =~= out@);
                        assert(spec_run(m0, d0, buf@.take(i + 1)) == (Outcome {
                            ok: true,
                            mode: mode,
                            depth: depth as nat,
                            out: out@,
                        }));
                    }
                },
                Err(e) => {
                    proof {
                        let s = spec_step(pm, pd, b);
                        assert(!s.ok);
                        assert(!spec_run(m0, d0, buf@.take(i + 1)).ok);
                        lemma_run_append(m0, d0, buf@.take(i + 1), buf@.skip(i + 1));
                        assert(buf@.take(i + 1) + buf@.skip(i + 1) =~= buf@);
                        assert(!spec_run(m0, d0, buf@).ok);
                    }
                    return Err(e);
                },
            }
            i = i + 1;
        }
        proof {
            assert(buf@.take(i as int) =~= buf@);
        }
        self.mode = mode;
        self.depth = depth;
        Ok(out)
    }
}

} // verus!
