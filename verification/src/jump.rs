//! Bracket matching: the specification of the jump-table construction scan,
//! and the laws it obeys on balanced and unbalanced programs.

use vstd::prelude::*;

use crate::ops::{decode, Operator};
use crate::EngineError;

verus! {

/// The bracket-matching scan, from position `i` to the end of the program.
/// `stack` holds the positions of the open brackets still unmatched, newest
/// last; `m` holds the pairs matched so far, in both directions.  A stray
/// close bracket fails at its own position; an open bracket still unmatched
/// when the scan completes fails at that open bracket's position.  A byte
/// that is no instruction fails the scan as well: the scan decodes every
/// byte it passes.
pub open spec fn jump_scan(src: Seq<u8>, i: int, stack: Seq<u64>, m: Map<u64, u64>) -> Result<
    Map<u64, u64>,
    EngineError,
>
    decreases src.len() - i,
{
    if i < 0 || i >= src.len() {
        if stack.len() == 0 {
            Ok(m)
        } else {
            Err(EngineError::MalformedProgram { position: stack.last() })
        }
    } else {
        match decode(src[i]) {
            None => Err(EngineError::UnknownInstruction { position: i as u64, byte: src[i] }),
            Some(op) => match op {
                Operator::JumpRight => jump_scan(src, i + 1, stack.push(i as u64), m),
                Operator::JumpLeft => if stack.len() == 0 {
                    Err(EngineError::MalformedProgram { position: i as u64 })
                } else {
                    jump_scan(
                        src,
                        i + 1,
                        stack.drop_last(),
                        m.insert(stack.last(), i as u64).insert(i as u64, stack.last()),
                    )
                },
                _ => jump_scan(src, i + 1, stack, m),
            },
        }
    }
}

/// The jump table of a whole program: the scan started at the beginning
/// with nothing pending.
pub open spec fn build_jump_table(src: Seq<u8>) -> Result<Map<u64, u64>, EngineError> {
    jump_scan(src, 0, Seq::empty(), Map::empty())
}

/// Number of open brackets among the first `k` bytes.
pub open spec fn opens_upto(src: Seq<u8>, k: int) -> int
    decreases k,
{
    if k <= 0 {
        0
    } else {
        opens_upto(src, k - 1) + if decode(src[k - 1]) == Some(Operator::JumpRight) {
            1int
        } else {
            0int
        }
    }
}

/// Number of close brackets among the first `k` bytes.
pub open spec fn closes_upto(src: Seq<u8>, k: int) -> int
    decreases k,
{
    if k <= 0 {
        0
    } else {
        closes_upto(src, k - 1) + if decode(src[k - 1]) == Some(Operator::JumpLeft) {
            1int
        } else {
            0int
        }
    }
}

/// Every byte of the program is an instruction.
pub open spec fn all_instructions(src: Seq<u8>) -> bool {
    forall|j: int| 0 <= j < src.len() ==> decode(src[j]) is Some
}

/// The program's brackets are balanced: no prefix closes more brackets than
/// it has opened, and over the whole program the counts agree.
pub open spec fn balanced(src: Seq<u8>) -> bool {
    &&& forall|k: int| 0 <= k <= src.len() ==> closes_upto(src, k) <= opens_upto(src, k)
    &&& closes_upto(src, src.len() as int) == opens_upto(src, src.len() as int)
}

/// One entry of a well-formed jump table: a bracket position paired, in
/// range, with its partner of the opposite kind, an open bracket strictly
/// before its close, and the partner pointing back.
pub open spec fn table_entry_ok(src: Seq<u8>, t: Map<u64, u64>, p: u64) -> bool {
    &&& p < src.len()
    &&& t[p] < src.len()
    &&& t.contains_key(t[p])
    &&& t[t[p]] == p
    &&& decode(src[p as int]) == Some(Operator::JumpRight) || decode(src[p as int]) == Some(
        Operator::JumpLeft,
    )
    &&& decode(src[p as int]) == Some(Operator::JumpRight) ==> p < t[p] && decode(
        src[t[p] as int],
    ) == Some(Operator::JumpLeft)
    &&& decode(src[p as int]) == Some(Operator::JumpLeft) ==> t[p] < p && decode(
        src[t[p] as int],
    ) == Some(Operator::JumpRight)
}

/// A well-formed jump table for `src`: every entry is a correctly paired
/// bracket, and every bracket position of the program has an entry.
pub open spec fn table_ok(src: Seq<u8>, t: Map<u64, u64>) -> bool {
    &&& forall|p: u64| #[trigger] t.contains_key(p) ==> table_entry_ok(src, t, p)
    &&& forall|p: int|
        0 <= p < src.len() && (decode(src[p]) == Some(Operator::JumpRight) || decode(src[p])
            == Some(Operator::JumpLeft)) ==> t.contains_key(p as u64)
}

/// The inductive heart of the success law: a scan whose remaining bytes
/// balance out the pending opens succeeds and extends the table to a
/// well-formed one.
proof fn lemma_scan_ok(src: Seq<u8>, i: int, stack: Seq<u64>, m: Map<u64, u64>)
    requires
        src.len() <= u64::MAX,
        0 <= i <= src.len(),
        all_instructions(src),
        forall|k: int|
            i <= k <= src.len() ==> #[trigger] closes_upto(src, k) - closes_upto(src, i)
                <= opens_upto(src, k) - opens_upto(src, i) + stack.len(),
        closes_upto(src, src.len() as int) - closes_upto(src, i) == opens_upto(
            src,
            src.len() as int,
        ) - opens_upto(src, i) + stack.len(),
        forall|j: int|
            0 <= j < stack.len() ==> #[trigger] stack[j] < i && decode(src[stack[j] as int])
                == Some(Operator::JumpRight) && !m.contains_key(stack[j]),
        forall|j1: int, j2: int| 0 <= j1 < j2 < stack.len() ==> stack[j1] < stack[j2],
        forall|p: u64| #[trigger] m.contains_key(p) ==> p < i && m[p] < i && table_entry_ok(src, m, p),
        forall|p: int|
            0 <= p < i && (decode(src[p]) == Some(Operator::JumpRight) || decode(src[p]) == Some(
                Operator::JumpLeft,
            )) ==> m.contains_key(p as u64) || stack.contains(p as u64),
    ensures
        jump_scan(src, i, stack, m) matches Ok(t) && table_ok(src, t) && (forall|p: u64|
            #[trigger] m.contains_key(p) ==> t.contains_key(p) && t[p] == m[p]),
    decreases src.len() - i,
{
    if i == src.len() {
        assert(stack.len() == 0);
        assert(jump_scan(src, i, stack, m) == Ok::<Map<u64, u64>, EngineError>(m));
    } else {
        let b = src[i];
        let op = decode(b)->0;
        assert(closes_upto(src, i + 1) == closes_upto(src, i) + if decode(src[i]) == Some(
            Operator::JumpLeft,
        ) {
            1int
        } else {
            0int
        });
        assert(opens_upto(src, i + 1) == opens_upto(src, i) + if decode(src[i]) == Some(
            Operator::JumpRight,
        ) {
            1int
        } else {
            0int
        });
        if op == Operator::JumpRight {
            let stack2 = stack.push(i as u64);
            assert forall|k: int|
                i + 1 <= k <= src.len() implies #[trigger] closes_upto(src, k) - closes_upto(
                src,
                i + 1,
            ) <= opens_upto(src, k) - opens_upto(src, i + 1) + stack2.len() by {
                assert(closes_upto(src, k) - closes_upto(src, i) <= opens_upto(src, k)
                    - opens_upto(src, i) + stack.len());
            }
            assert forall|p: int|
                0 <= p < i + 1 && (decode(src[p]) == Some(Operator::JumpRight) || decode(src[p])
                    == Some(Operator::JumpLeft)) implies m.contains_key(p as u64)
                || stack2.contains(p as u64) by {
                if p == i {
                    assert(stack2[stack2.len() - 1] == i as u64);
                } else {
                    assert(m.contains_key(p as u64) || stack.contains(p as u64));
                    if stack.contains(p as u64) {
                        let j = choose|j: int| 0 <= j < stack.len() && stack[j] == p as u64;
                        assert(stack2[j] == p as u64);
                    }
                }
            }
            lemma_scan_ok(src, i + 1, stack2, m);
        } else if op == Operator::JumpLeft {
            assert(closes_upto(src, i + 1) - closes_upto(src, i) <= opens_upto(src, i + 1)
                - opens_upto(src, i) + stack.len());
            assert(stack.len() >= 1);
            let x = stack.last();
            let stack2 = stack.drop_last();
            let m2 = m.insert(x, i as u64).insert(i as u64, x);
            assert(!m.contains_key(x));
            assert(!m.contains_key(i as u64));
            assert forall|p: u64| #[trigger]
                m2.contains_key(p) implies p < i + 1 && m2[p] < i + 1 && table_entry_ok(
                src,
                m2,
                p,
            ) by {
                if p == x {
                    assert(m2[x] == i as u64);
                    assert(m2[i as u64] == x);
                } else if p == i as u64 {
                    assert(m2[i as u64] == x);
                    assert(m2[x] == i as u64);
                } else {
                    assert(m.contains_key(p));
                    assert(table_entry_ok(src, m, p));
                    assert(m[p] != x && m[p] != i as u64) by {
                        assert(m.contains_key(m[p]));
                    }
                    assert(m2[p] == m[p]);
                    assert(m2[m2[p]] == m[m[p]]);
                }
            }
            assert forall|p: int|
                0 <= p < i + 1 && (decode(src[p]) == Some(Operator::JumpRight) || decode(src[p])
                    == Some(Operator::JumpLeft)) implies m2.contains_key(p as u64)
                || stack2.contains(p as u64) by {
                if p == i {
                } else if p as u64 == x {
                } else {
                    assert(m.contains_key(p as u64) || stack.contains(p as u64));
                    if m.contains_key(p as u64) {
                        assert(m2.contains_key(p as u64));
                    } else {
                        let j = choose|j: int| 0 <= j < stack.len() && stack[j] == p as u64;
                        assert(j < stack.len() - 1) by {
                            assert(stack[stack.len() - 1] == x);
                        }
                        assert(stack2[j] == p as u64);
                    }
                }
            }
            assert forall|j: int|
                0 <= j < stack2.len() implies #[trigger] stack2[j] < i + 1 && decode(
                src[stack2[j] as int],
            ) == Some(Operator::JumpRight) && !m2.contains_key(stack2[j]) by {
                assert(stack2[j] == stack[j]);
                assert(stack[j] < stack[stack.len() - 1]) by {
                    if j < stack.len() - 1 {
                    }
                }
            }
            lemma_scan_ok(src, i + 1, stack2, m2);
            assert(jump_scan(src, i, stack, m) == jump_scan(src, i + 1, stack2, m2));
        } else {
            lemma_scan_ok(src, i + 1, stack, m);
            assert(jump_scan(src, i, stack, m) == jump_scan(src, i + 1, stack, m));
        }
    }
}

/// LAW: on a program of instruction bytes whose brackets are balanced, with
/// arbitrary nesting, the jump-table construction succeeds, every bracket
/// position has an entry, and every open bracket maps to a close bracket
/// strictly after it (which maps back).
pub proof fn lemma_balanced_build_ok(src: Seq<u8>)
    requires
        src.len() <= u64::MAX,
        all_instructions(src),
        balanced(src),
    ensures
        build_jump_table(src) matches Ok(t) && table_ok(src, t),
{
    lemma_scan_ok(src, 0, Seq::empty(), Map::empty());
}

/// Acceptance alone is enough for well-formedness: whatever program the
/// scan accepts, every byte of it decoded and the finished table pairs the
/// brackets correctly.
proof fn lemma_scan_accepting(src: Seq<u8>, i: int, stack: Seq<u64>, m: Map<u64, u64>)
    requires
        src.len() <= u64::MAX,
        0 <= i <= src.len(),
        forall|j: int|
            0 <= j < stack.len() ==> #[trigger] stack[j] < i && decode(src[stack[j] as int])
                == Some(Operator::JumpRight) && !m.contains_key(stack[j]),
        forall|j1: int, j2: int| 0 <= j1 < j2 < stack.len() ==> stack[j1] < stack[j2],
        forall|p: u64| #[trigger] m.contains_key(p) ==> p < i && m[p] < i && table_entry_ok(src, m, p),
        forall|p: int|
            0 <= p < i && (decode(src[p]) == Some(Operator::JumpRight) || decode(src[p]) == Some(
                Operator::JumpLeft,
            )) ==> m.contains_key(p as u64) || stack.contains(p as u64),
        forall|j: int| 0 <= j < i ==> decode(src[j]) is Some,
    ensures
        jump_scan(src, i, stack, m) matches Ok(t) ==> table_ok(src, t) && all_instructions(src),
    decreases src.len() - i,
{
    if i == src.len() {
    } else {
        match decode(src[i]) {
            None => {},
            Some(op) => {
                if op == Operator::JumpRight {
                    let stack2 = stack.push(i as u64);
                    assert forall|p: int|
                        0 <= p < i + 1 && (decode(src[p]) == Some(Operator::JumpRight) || decode(
                            src[p],
                        ) == Some(Operator::JumpLeft)) implies m.contains_key(p as u64)
                        || stack2.contains(p as u64) by {
                        if p == i {
                            assert(stack2[stack2.len() - 1] == i as u64);
                        } else {
                            assert(m.contains_key(p as u64) || stack.contains(p as u64));
                            if stack.contains(p as u64) {
                                let j = choose|j: int| 0 <= j < stack.len() && stack[j] == p as u64;
                                assert(stack2[j] == p as u64);
                            }
                        }
                    }
                    lemma_scan_accepting(src, i + 1, stack2, m);
                } else if op == Operator::JumpLeft {
                    if stack.len() == 0 {
                    } else {
                        let x = stack.last();
                        let stack2 = stack.drop_last();
                        let m2 = m.insert(x, i as u64).insert(i as u64, x);
                        assert(!m.contains_key(x));
                        assert(!m.contains_key(i as u64));
                        assert forall|p: u64| #[trigger]
                            m2.contains_key(p) implies p < i + 1 && m2[p] < i + 1
                            && table_entry_ok(src, m2, p) by {
                            if p == x {
                                assert(m2[x] == i as u64);
                                assert(m2[i as u64] == x);
                            } else if p == i as u64 {
                                assert(m2[i as u64] == x);
                                assert(m2[x] == i as u64);
                            } else {
                                assert(m.contains_key(p));
                                assert(table_entry_ok(src, m, p));
                                assert(m[p] != x && m[p] != i as u64) by {
                                    assert(m.contains_key(m[p]));
                                }
                                assert(m2[p] == m[p]);
                                assert(m2[m2[p]] == m[m[p]]);
                            }
                        }
                        assert forall|p: int|
                            0 <= p < i + 1 && (decode(src[p]) == Some(Operator::JumpRight)
                                || decode(src[p]) == Some(Operator::JumpLeft)) implies
                            m2.contains_key(p as u64) || stack2.contains(p as u64) by {
                            if p == i {
                            } else if p as u64 == x {
                            } else {
                                assert(m.contains_key(p as u64) || stack.contains(p as u64));
                                if !m.contains_key(p as u64) {
                                    let j = choose|j: int|
                                        0 <= j < stack.len() && stack[j] == p as u64;
                                    assert(j < stack.len() - 1) by {
                                        assert(stack[stack.len() - 1] == x);
                                    }
                                    assert(stack2[j] == p as u64);
                                }
                            }
                        }
                        assert forall|j: int|
                            0 <= j < stack2.len() implies #[trigger] stack2[j] < i + 1 && decode(
                            src[stack2[j] as int],
                        ) == Some(Operator::JumpRight) && !m2.contains_key(stack2[j]) by {
                            assert(stack2[j] == stack[j]);
                            assert(stack[j] < stack[stack.len() - 1]) by {
                                if j < stack.len() - 1 {
                                }
                            }
                        }
                        lemma_scan_accepting(src, i + 1, stack2, m2);
                        assert(jump_scan(src, i, stack, m) == jump_scan(src, i + 1, stack2, m2));
                    }
                } else {
                    lemma_scan_accepting(src, i + 1, stack, m);
                    assert(jump_scan(src, i, stack, m) == jump_scan(src, i + 1, stack, m));
                }
            },
        }
    }
}

/// LAW: a program the construction accepted got a well-formed table —
/// every byte of the program decodes, every bracket position has an entry,
/// and the entries pair open with close correctly.  Acceptance alone
/// guarantees it, whether or not anything else is known of the program.
pub proof fn lemma_accepted_build_wf(src: Seq<u8>)
    requires
        src.len() <= u64::MAX,
    ensures
        build_jump_table(src) matches Ok(t) ==> table_ok(src, t) && all_instructions(src),
{
    lemma_scan_accepting(src, 0, Seq::empty(), Map::empty());
}

/// The inductive form of the stray-close law: when the pending opens are
/// exactly used up at a close bracket `q`, the scan fails there.
proof fn lemma_scan_err_close(src: Seq<u8>, i: int, stack: Seq<u64>, m: Map<u64, u64>, q: int)
    requires
        src.len() <= u64::MAX,
        all_instructions(src),
        0 <= i <= q < src.len(),
        decode(src[q]) == Some(Operator::JumpLeft),
        forall|k: int|
            i <= k <= q ==> #[trigger] closes_upto(src, k) - closes_upto(src, i) <= opens_upto(
                src,
                k,
            ) - opens_upto(src, i) + stack.len(),
        closes_upto(src, q) - closes_upto(src, i) == opens_upto(src, q) - opens_upto(src, i)
            + stack.len(),
    ensures
        jump_scan(src, i, stack, m) == Err::<Map<u64, u64>, EngineError>(
            (EngineError::MalformedProgram { position: q as u64 }),
        ),
    decreases q - i,
{
    assert(closes_upto(src, i + 1) == closes_upto(src, i) + if decode(src[i]) == Some(
        Operator::JumpLeft,
    ) {
        1int
    } else {
        0int
    });
    assert(opens_upto(src, i + 1) == opens_upto(src, i) + if decode(src[i]) == Some(
        Operator::JumpRight,
    ) {
        1int
    } else {
        0int
    });
    let op = decode(src[i])->0;
    if i == q {
        assert(stack.len() == 0);
    } else {
        if op == Operator::JumpRight {
            let stack2 = stack.push(i as u64);
            assert forall|k: int|
                i + 1 <= k <= q implies #[trigger] closes_upto(src, k) - closes_upto(src, i + 1)
                <= opens_upto(src, k) - opens_upto(src, i + 1) + stack2.len() by {
                assert(closes_upto(src, k) - closes_upto(src, i) <= opens_upto(src, k)
                    - opens_upto(src, i) + stack.len());
            }
            lemma_scan_err_close(src, i + 1, stack2, m, q);
        } else if op == Operator::JumpLeft {
            assert(closes_upto(src, i + 1) - closes_upto(src, i) <= opens_upto(src, i + 1)
                - opens_upto(src, i) + stack.len());
            assert(stack.len() >= 1);
            let stack2 = stack.drop_last();
            let m2 = m.insert(stack.last(), i as u64).insert(i as u64, stack.last());
            lemma_scan_err_close(src, i + 1, stack2, m2, q);
        } else {
            lemma_scan_err_close(src, i + 1, stack, m, q);
        }
    }
}

/// LAW: a stray close bracket fails the construction with a malformed-program
/// error at exactly its own position.  `q` is the first close bracket that
/// has no open bracket left to match: every prefix through `q` closes no
/// more than it opens, and at `q` the counts are even.
pub proof fn lemma_unmatched_close(src: Seq<u8>, q: int)
    requires
        src.len() <= u64::MAX,
        all_instructions(src),
        0 <= q < src.len(),
        decode(src[q]) == Some(Operator::JumpLeft),
        closes_upto(src, q) == opens_upto(src, q),
        forall|k: int| 0 <= k <= q ==> #[trigger] closes_upto(src, k) <= opens_upto(src, k),
    ensures
        build_jump_table(src) == Err::<Map<u64, u64>, EngineError>(
            (EngineError::MalformedProgram { position: q as u64 }),
        ),
{
    lemma_scan_err_close(src, 0, Seq::empty(), Map::empty(), q);
}

/// The inductive form of the stray-open law: when the remaining bytes cannot
/// use up the pending opens, the scan completes and then fails at an open
/// bracket's position.
proof fn lemma_scan_err_open(src: Seq<u8>, i: int, stack: Seq<u64>, m: Map<u64, u64>)
    requires
        src.len() <= u64::MAX,
        all_instructions(src),
        0 <= i <= src.len(),
        forall|k: int|
            i <= k <= src.len() ==> #[trigger] closes_upto(src, k) - closes_upto(src, i)
                <= opens_upto(src, k) - opens_upto(src, i) + stack.len(),
        closes_upto(src, src.len() as int) - closes_upto(src, i) < opens_upto(
            src,
            src.len() as int,
        ) - opens_upto(src, i) + stack.len(),
        forall|j: int|
            0 <= j < stack.len() ==> #[trigger] stack[j] < i && decode(src[stack[j] as int])
                == Some(Operator::JumpRight),
    ensures
        jump_scan(src, i, stack, m) matches Err(e) && e matches EngineError::MalformedProgram {
            position,
        } && position < src.len() && decode(src[position as int]) == Some(Operator::JumpRight),
    decreases src.len() - i,
{
    if i == src.len() {
        assert(stack.len() > 0);
        assert(jump_scan(src, i, stack, m) == Err::<Map<u64, u64>, EngineError>(
            (EngineError::MalformedProgram { position: stack.last() }),
        ));
        assert(stack[stack.len() - 1] < i);
    } else {
        assert(closes_upto(src, i + 1) == closes_upto(src, i) + if decode(src[i]) == Some(
            Operator::JumpLeft,
        ) {
            1int
        } else {
            0int
        });
        assert(opens_upto(src, i + 1) == opens_upto(src, i) + if decode(src[i]) == Some(
            Operator::JumpRight,
        ) {
            1int
        } else {
            0int
        });
        let op = decode(src[i])->0;
        if op == Operator::JumpRight {
            let stack2 = stack.push(i as u64);
            assert forall|k: int|
                i + 1 <= k <= src.len() implies #[trigger] closes_upto(src, k) - closes_upto(
                src,
                i + 1,
            ) <= opens_upto(src, k) - opens_upto(src, i + 1) + stack2.len() by {
                assert(closes_upto(src, k) - closes_upto(src, i) <= opens_upto(src, k)
                    - opens_upto(src, i) + stack.len());
            }
            lemma_scan_err_open(src, i + 1, stack2, m);
        } else if op == Operator::JumpLeft {
            assert(closes_upto(src, i + 1) - closes_upto(src, i) <= opens_upto(src, i + 1)
                - opens_upto(src, i) + stack.len());
            assert(stack.len() >= 1);
            let stack2 = stack.drop_last();
            let m2 = m.insert(stack.last(), i as u64).insert(i as u64, stack.last());
            lemma_scan_err_open(src, i + 1, stack2, m2);
        } else {
            lemma_scan_err_open(src, i + 1, stack, m);
        }
    }
}

/// LAW: a program that never closes more brackets than it has opened, yet
/// opens more than it closes in total, fails the construction — after the
/// scan has completed — with a malformed-program error at the position of an
/// open bracket that was never matched.
pub proof fn lemma_unmatched_open(src: Seq<u8>)
    requires
        src.len() <= u64::MAX,
        all_instructions(src),
        forall|k: int|
            0 <= k <= src.len() ==> #[trigger] closes_upto(src, k) <= opens_upto(src, k),
        closes_upto(src, src.len() as int) < opens_upto(src, src.len() as int),
    ensures
        build_jump_table(src) matches Err(e) && e matches EngineError::MalformedProgram {
            position,
        } && position < src.len() && decode(src[position as int]) == Some(Operator::JumpRight),
{
    lemma_scan_err_open(src, 0, Seq::empty(), Map::empty());
}

} // verus!
