//! The laws the reformatter obeys, stated and proved over the machine's
//! mathematical model.

use vstd::prelude::*;

use crate::machine::{
    failure, is_ws, spec_run, spec_step, tabs, Mode, Outcome, CLOSE, CR, NL, OPEN,
};

verus! {

/// One run carried on by another: the second starts in the state the
/// first reached, and its output is appended. A failed first run ends
/// the matter.
pub open spec fn chained(first: Outcome, b: Seq<u8>) -> Outcome {
    if !first.ok {
        first
    } else {
        let second = spec_run(first.mode, first.depth, b);
        Outcome {
            ok: second.ok,
            mode: second.mode,
            depth: second.depth,
            out: first.out + second.out,
        }
    }
}

/// A run over a single byte is exactly one step of the machine.
pub proof fn lemma_run_single(mode: Mode, depth: nat, b: u8)
    ensures
        spec_run(mode, depth, seq![b]) == spec_step(mode, depth, b),
{
    let s = seq![b];
    assert(s[0] == b);
    assert(s.skip(1) =~= Seq::<u8>::empty());
    let first = spec_step(mode, depth, b);
    if first.ok {
        assert(spec_run(first.mode, first.depth, Seq::<u8>::empty()) == Outcome {
            ok: true,
            mode: first.mode,
            depth: first.depth,
            out: Seq::<u8>::empty(),
        });
        assert(spec_run(mode, depth, s) =~= first);
    } else {
        assert(first == failure(mode, depth));
    }
}

/// Chunk-boundary invariance: running the machine over `a + b` is the
/// same as running it over `a` and carrying on over `b` from the state
/// reached — same verdict, same final state, same concatenated output.
/// A caller may therefore cut a document into chunks at any byte
/// offsets and feed them one write call at a time.
pub proof fn lemma_run_append(mode: Mode, depth: nat, a: Seq<u8>, b: Seq<u8>)
    ensures
        spec_run(mode, depth, a + b) == chained(spec_run(mode, depth, a), b),
    decreases a.len(),
{
    if a.len() == 0 {
        assert(a + b =~= b);
        let second = spec_run(mode, depth, b);
        assert(Seq::<u8>::empty() + second.out =~= second.out);
        assert(spec_run(mode, depth, a + b) =~= chained(spec_run(mode, depth, a), b));
    } else {
        let first = spec_step(mode, depth, a[0]);
        assert((a + b).len() > 0);
        assert((a + b)[0] == a[0]);
        if first.ok {
            lemma_run_append(first.mode, first.depth, a.skip(1), b);
            assert((a + b).skip(1) =~= a.skip(1) + b);
            let ra = spec_run(first.mode, first.depth, a.skip(1));
            if ra.ok {
                let rb = spec_run(ra.mode, ra.depth, b);
                assert(first.out + (ra.out + rb.out) =~= (first.out + ra.out) + rb.out);
            }
            assert(spec_run(mode, depth, a + b) =~= chained(spec_run(mode, depth, a), b));
        } else {
            assert(spec_run(mode, depth, a + b) == failure(mode, depth));
            assert(spec_run(mode, depth, a) == failure(mode, depth));
        }
    }
}

/// Chunk-boundary invariance as a caller sees it: cutting an input in
/// two at any byte offset and feeding the parts in turn gives the very
/// run the whole input gives.
pub proof fn lemma_chunk_split(mode: Mode, depth: nat, input: Seq<u8>, cut: int)
    requires
        0 <= cut <= input.len(),
    ensures
        spec_run(mode, depth, input) == chained(
            spec_run(mode, depth, input.take(cut)),
            input.skip(cut),
        ),
{
    lemma_run_append(mode, depth, input.take(cut), input.skip(cut));
    assert(input.take(cut) + input.skip(cut) =~= input);
}

/// Whitespace normalization, first half: a run of whitespace standing
/// where a line starts is deleted entirely — the machine emits nothing
/// for it and does not move.
pub proof fn lemma_line_start_ws_dropped(depth: nat, white: Seq<u8>, rest: Seq<u8>)
    requires
        forall|i: int| 0 <= i < white.len() ==> is_ws(white[i]),
    ensures
        spec_run(Mode::LineStart, depth, white + rest) == spec_run(Mode::LineStart, depth, rest),
    decreases white.len(),
{
    if white.len() == 0 {
        assert(white + rest =~= rest);
    } else {
        let w = white + rest;
        assert(w[0] == white[0]);
        let first = spec_step(Mode::LineStart, depth, white[0]);
        assert(first == Outcome {
            ok: true,
            mode: Mode::LineStart,
            depth,
            out: Seq::<u8>::empty(),
        });
        assert(w.skip(1) =~= white.skip(1) + rest);
        lemma_line_start_ws_dropped(depth, white.skip(1), rest);
        let r = spec_run(Mode::LineStart, depth, rest);
        assert(Seq::<u8>::empty() + r.out =~= r.out);
        assert(spec_run(Mode::LineStart, depth, w) =~= r);
    }
}

/// Whitespace normalization, second half: mid-line, a carriage return
/// or line feed becomes the one newline the machine emits, and every
/// other whitespace byte is kept verbatim.
pub proof fn lemma_mid_line_ws_kept(depth: nat, b: u8)
    requires
        is_ws(b),
    ensures
        b == NL || b == CR ==> spec_step(Mode::MidLine, depth, b) == (Outcome {
            ok: true,
            mode: Mode::LineStart,
            depth,
            out: seq![NL],
        }),
        b != NL && b != CR ==> spec_step(Mode::MidLine, depth, b) == (Outcome {
            ok: true,
            mode: Mode::MidLine,
            depth,
            out: seq![b],
        }),
{
}

/// Replaying what an open brace emitted: the indentation is dropped as
/// line-start whitespace, the brace re-opens a block at the same depth,
/// and the trailing newline is dropped — the same bytes come out and
/// the machine lands in the same state.
proof fn lemma_replay_open(depth: nat)
    ensures
        spec_run(Mode::LineStart, depth, tabs(depth) + seq![OPEN, NL]) == (Outcome {
            ok: true,
            mode: Mode::LineStart,
            depth: depth + 1,
            out: tabs(depth) + seq![OPEN, NL],
        }),
{
    let body = seq![OPEN, NL];
    lemma_line_start_ws_dropped(depth, tabs(depth), body);
    assert(body =~= seq![OPEN] + seq![NL]);
    lemma_run_append(Mode::LineStart, depth, seq![OPEN], seq![NL]);
    lemma_run_single(Mode::LineStart, depth, OPEN);
    lemma_run_single(Mode::LineStart, depth + 1, NL);
    assert((tabs(depth) + seq![OPEN, NL]) + Seq::<u8>::empty() =~= tabs(depth) + seq![OPEN, NL]);
    assert(spec_run(Mode::LineStart, depth, body) =~= Outcome {
        ok: true,
        mode: Mode::LineStart,
        depth: depth + 1,
        out: tabs(depth) + seq![OPEN, NL],
    });
}

/// Replaying what a close brace emitted, from the depth it was closing.
proof fn lemma_replay_close(depth: nat)
    requires
        depth >= 1,
    ensures
        spec_run(Mode::LineStart, depth, tabs((depth - 1) as nat) + seq![CLOSE, NL]) == (Outcome {
            ok: true,
            mode: Mode::LineStart,
            depth: (depth - 1) as nat,
            out: tabs((depth - 1) as nat) + seq![CLOSE, NL],
        }),
{
    let low = (depth - 1) as nat;
    let body = seq![CLOSE, NL];
    lemma_line_start_ws_dropped(depth, tabs(low), body);
    assert(body =~= seq![CLOSE] + seq![NL]);
    lemma_run_append(Mode::LineStart, depth, seq![CLOSE], seq![NL]);
    lemma_run_single(Mode::LineStart, depth, CLOSE);
    lemma_run_single(Mode::LineStart, low, NL);
    assert((tabs(low) + seq![CLOSE, NL]) + Seq::<u8>::empty() =~= tabs(low) + seq![CLOSE, NL]);
    assert(spec_run(Mode::LineStart, depth, body) =~= Outcome {
        ok: true,
        mode: Mode::LineStart,
        depth: low,
        out: tabs(low) + seq![CLOSE, NL],
    });
}

/// Replaying an indented content byte: the tabs are dropped as
/// line-start whitespace and re-emitted for the byte that follows them.
proof fn lemma_replay_content(depth: nat, b: u8)
    requires
        !is_ws(b),
        b != OPEN,
        b != CLOSE,
    ensures
        spec_run(Mode::LineStart, depth, tabs(depth).push(b)) == (Outcome {
            ok: true,
            mode: Mode::MidLine,
            depth,
            out: tabs(depth).push(b),
        }),
{
    assert(tabs(depth).push(b) =~= tabs(depth) + seq![b]);
    lemma_line_start_ws_dropped(depth, tabs(depth), seq![b]);
    lemma_run_single(Mode::LineStart, depth, b);
}

/// What one step emits, fed back to the machine from the state the
/// step started in, is emitted again unchanged, and the machine ends in
/// the state the step reached.
proof fn lemma_step_replay(mode: Mode, depth: nat, b: u8)
    requires
        spec_step(mode, depth, b).ok,
    ensures
        ({
            let t = spec_step(mode, depth, b);
            spec_run(mode, depth, t.out) == (Outcome {
                ok: true,
                mode: t.mode,
                depth: t.depth,
                out: t.out,
            })
        }),
{
    let t = spec_step(mode, depth, b);
    match mode {
        Mode::LineStart => {
            if b == OPEN {
                lemma_replay_open(depth);
            } else if b == CLOSE {
                lemma_replay_close(depth);
            } else if is_ws(b) {
            } else {
                lemma_replay_content(depth, b);
            }
        },
        Mode::MidLine => {
            if b == NL || b == CR {
                lemma_run_single(Mode::MidLine, depth, NL);
            } else if b == OPEN {
                assert(t.out =~= seq![NL] + (tabs(depth) + seq![OPEN, NL]));
                lemma_run_append(Mode::MidLine, depth, seq![NL], tabs(depth) + seq![OPEN, NL]);
                lemma_run_single(Mode::MidLine, depth, NL);
                lemma_replay_open(depth);
                assert(spec_run(Mode::MidLine, depth, t.out) =~= Outcome {
                    ok: true,
                    mode: t.mode,
                    depth: t.depth,
                    out: t.out,
                });
            } else if b == CLOSE {
                let low = (depth - 1) as nat;
                assert(t.out =~= seq![NL] + (tabs(low) + seq![CLOSE, NL]));
                lemma_run_append(Mode::MidLine, depth, seq![NL], tabs(low) + seq![CLOSE, NL]);
                lemma_run_single(Mode::MidLine, depth, NL);
                lemma_replay_close(depth);
                assert(spec_run(Mode::MidLine, depth, t.out) =~= Outcome {
                    ok: true,
                    mode: t.mode,
                    depth: t.depth,
                    out: t.out,
                });
            } else {
                lemma_run_single(Mode::MidLine, depth, b);
            }
        },
    }
}

/// Idempotent re-indentation: what the machine emits for an accepted
/// input is a fixed point — fed back from the same starting state it is
/// accepted, reproduced byte for byte, and leaves the machine in the
/// same final state. Output that is already correctly indented is never
/// reshaped.
pub proof fn lemma_reformat_idempotent(mode: Mode, depth: nat, input: Seq<u8>)
    requires
        spec_run(mode, depth, input).ok,
    ensures
        ({
            let t = spec_run(mode, depth, input);
            spec_run(mode, depth, t.out) == (Outcome {
                ok: true,
                mode: t.mode,
                depth: t.depth,
                out: t.out,
            })
        }),
    decreases input.len(),
{
    let t = spec_run(mode, depth, input);
    if input.len() == 0 {
    } else {
        let s = spec_step(mode, depth, input[0]);
        assert(s.ok);
        let rest = spec_run(s.mode, s.depth, input.skip(1));
        lemma_step_replay(mode, depth, input[0]);
        lemma_reformat_idempotent(s.mode, s.depth, input.skip(1));
        lemma_run_append(mode, depth, s.out, rest.out);
        assert(spec_run(mode, depth, t.out) =~= Outcome {
            ok: true,
            mode: t.mode,
            depth: t.depth,
            out: t.out,
        });
    }
}

/// How many blocks a byte sequence opens.
pub open spec fn opens(s: Seq<u8>) -> nat
    decreases s.len(),
{
    if s.len() == 0 {
        0
    } else {
        (if s[0] == OPEN {
            1nat
        } else {
            0nat
        }) + opens(s.skip(1))
    }
}

/// How many blocks a byte sequence closes.
pub open spec fn closes(s: Seq<u8>) -> nat
    decreases s.len(),
{
    if s.len() == 0 {
        0
    } else {
        (if s[0] == CLOSE {
            1nat
        } else {
            0nat
        }) + closes(s.skip(1))
    }
}

/// Depth bookkeeping: an accepted run moves the depth by exactly the
/// open braces less the close braces of its input — nothing else moves
/// it.
pub proof fn lemma_run_depth(mode: Mode, depth: nat, s: Seq<u8>)
    requires
        spec_run(mode, depth, s).ok,
    ensures
        spec_run(mode, depth, s).depth + closes(s) == depth + opens(s),
    decreases s.len(),
{
    if s.len() == 0 {
    } else {
        let first = spec_step(mode, depth, s[0]);
        assert(first.ok);
        assert(first.depth + (if s[0] == CLOSE {
            1nat
        } else {
            0nat
        }) == depth + (if s[0] == OPEN {
            1nat
        } else {
            0nat
        }));
        lemma_run_depth(first.mode, first.depth, s.skip(1));
    }
}

/// The brace counts of a single byte.
proof fn lemma_count_single(b: u8)
    ensures
        opens(seq![b]) == (if b == OPEN {
            1nat
        } else {
            0nat
        }),
        closes(seq![b]) == (if b == CLOSE {
            1nat
        } else {
            0nat
        }),
{
    assert(seq![b].skip(1) =~= Seq::<u8>::empty());
    assert(opens(Seq::<u8>::empty()) == 0);
    assert(closes(Seq::<u8>::empty()) == 0);
}

/// Underflow safety: as long as no prefix of the input closes more
/// blocks than the starting depth and its own open braces cover, the
/// run is accepted — and only such inputs are, see
/// [`lemma_run_underflow`].
pub proof fn lemma_prefix_safe_run_ok(mode: Mode, depth: nat, s: Seq<u8>)
    requires
        forall|i: int| 0 <= i <= s.len() ==> closes(s.take(i)) <= depth + opens(s.take(i)),
    ensures
        spec_run(mode, depth, s).ok,
    decreases s.len(),
{
    if s.len() == 0 {
    } else {
        let first = spec_step(mode, depth, s[0]);
        assert(s.take(1) =~= seq![s[0]]);
        lemma_count_single(s[0]);
        assert(closes(s.take(1)) <= depth + opens(s.take(1)));
        if s[0] == CLOSE {
            assert(depth >= 1);
        }
        assert(first.ok);
        assert forall|j: int| 0 <= j <= s.skip(1).len() implies closes(s.skip(1).take(j))
            <= first.depth + opens(s.skip(1).take(j)) by {
            assert(s.take(j + 1).skip(1) =~= s.skip(1).take(j));
            assert(s.take(j + 1)[0] == s[0]);
            assert(closes(s.take(j + 1)) <= depth + opens(s.take(j + 1)));
        }
        lemma_prefix_safe_run_ok(first.mode, first.depth, s.skip(1));
    }
}

/// Underflow, the other direction: a refused run really saw a close
/// brace too many — some prefix closes more blocks than the starting
/// depth and its own open braces cover.
pub proof fn lemma_run_underflow(mode: Mode, depth: nat, s: Seq<u8>)
    requires
        !spec_run(mode, depth, s).ok,
    ensures
        exists|i: int|
            0 <= i <= s.len() && closes(s.take(i)) > depth + opens(s.take(i)),
{
    if forall|i: int| 0 <= i <= s.len() ==> closes(s.take(i)) <= depth + opens(s.take(i)) {
        lemma_prefix_safe_run_ok(mode, depth, s);
    }
}

/// Brace balance round-trip: balanced input — no prefix closes more
/// than it has opened, and over the whole the counts agree — runs
/// through a fresh filter and brings the depth back to zero.
pub proof fn lemma_balanced_depth_zero(input: Seq<u8>)
    requires
        opens(input) == closes(input),
        forall|i: int| 0 <= i <= input.len() ==> closes(input.take(i)) <= opens(input.take(i)),
    ensures
        spec_run(Mode::LineStart, 0, input).ok,
        spec_run(Mode::LineStart, 0, input).depth == 0,
{
    lemma_prefix_safe_run_ok(Mode::LineStart, 0, input);
    lemma_run_depth(Mode::LineStart, 0, input);
    assert(input.take(input.len() as int) =~= input);
}

} // verus!
