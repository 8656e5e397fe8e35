//! A structural validity check for WebAssembly binaries: the header,
//! the section framing in order, the import, memory, code and data
//! sections in detail — memory limits within the 64 Ki page bound, at
//! most one memory, no data segment or memory instruction without a
//! memory.

use vstd::prelude::*;

verus! {

/// The binary is not a well-formed module.
#[derive(Debug, Clone, Copy, PartialEq, Eq)]
pub struct CompileError;

/// The greatest value an unsigned 32-bit integer takes, plus one,
/// bounded per remaining LEB byte position.
pub open spec fn leb_bound(k: int) -> nat
    decreases 5 - k,
{
    if k >= 4 {
        0x10
    } else {
        0x80 * leb_bound(k + 1)
    }
}

/// An unsigned LEB128 value of at most five bytes at position `i`,
/// with its end position. The final byte of a five-byte value must
/// leave the unused bits clear.
pub open spec fn spec_leb(b: Seq<u8>, i: int, k: int) -> Option<(nat, int)>
    decreases 5 - k,
{
    if i < 0 || i >= b.len() || k >= 5 {
        None
    } else {
        let byte = b[i];
        if byte < 0x80 {
            if k == 4 && byte > 0x0F {
                None
            } else {
                Some((byte as nat, i + 1))
            }
        } else {
            match spec_leb(b, i + 1, k + 1) {
                None => None,
                Some((v, j)) => Some(((byte - 0x80) as nat + v * 0x80, j)),
            }
        }
    }
}

/// The bounds at each byte position, written out.
proof fn lemma_leb_bounds()
    ensures
        leb_bound(4) == 0x10,
        leb_bound(3) == 0x800,
        leb_bound(2) == 0x4_0000,
        leb_bound(1) == 0x200_0000,
        leb_bound(0) == 0x1_0000_0000,
{
    assert(leb_bound(4) == 0x10);
    assert(leb_bound(3) == 0x800);
    assert(leb_bound(2) == 0x4_0000);
    assert(leb_bound(1) == 0x200_0000);
    assert(leb_bound(0) == 0x1_0000_0000);
}

/// A parsed LEB value lies below the bound of its position.
proof fn lemma_leb_bound(b: Seq<u8>, i: int, k: int)
    requires
        0 <= k < 5,
        spec_leb(b, i, k) is Some,
    ensures
        spec_leb(b, i, k).unwrap().0 < leb_bound(k),
        i < spec_leb(b, i, k).unwrap().1 <= b.len(),
    decreases 5 - k,
{
    lemma_leb_bounds();
    let byte = b[i];
    if byte >= 0x80 {
        lemma_leb_bound(b, i + 1, k + 1);
        let v = spec_leb(b, i + 1, k + 1).unwrap().0;
        assert(spec_leb(b, i, k).unwrap().0 == (byte - 0x80) as nat + v * 0x80);
        assert(v <= leb_bound(k + 1) - 1);
        assert(v * 0x80 <= (leb_bound(k + 1) - 1) * 0x80) by (nonlinear_arith)
            requires
                v <= leb_bound(k + 1) - 1,
        ;
        assert(leb_bound(k) == 0x80 * leb_bound(k + 1));
    } else {
        if k < 4 {
            assert(leb_bound(k) >= 0x80) by {
                if k == 0 || k == 1 || k == 2 || k == 3 {
                }
            }
        }
    }
}

/// Reads an unsigned 32-bit LEB128 value.
fn leb_u32(b: &Vec<u8>, i: usize, k: usize) -> (r: Option<(u32, usize)>)
    requires
        k < 5,
    ensures
        match r {
            Some((v, j)) => spec_leb(b@, i as int, k as int) == Some((v as nat, j as int)),
            None => spec_leb(b@, i as int, k as int) is None,
        },
    decreases 5 - k,
{
    if i >= b.len() {
        return None;
    }
    let byte = b[i];
    if byte < 0x80 {
        if k == 4 && byte > 0x0F {
            None
        } else {
            Some((byte as u32, i + 1))
        }
    } else {
        if k + 1 >= 5 {
            proof {
                assert(spec_leb(b@, i + 1, k + 5 - 4) is None);
            }
            return None;
        }
        match leb_u32(b, i + 1, k + 1) {
            None => None,
            Some((v, j)) => {
                proof {
                    lemma_leb_bound(b@, i + 1, k + 1);
                    lemma_leb_bounds();
                    assert((v as nat) < 0x200_0000);
                    assert((v as nat) * 0x80 < 0x1_0000_0000);
                }
                let value = ((byte - 0x80) as u32) + v * 0x80;
                Some((value, j))
            },
        }
    }
}

/// A signed LEB128 run of at most `max` bytes, structurally: its end
/// position.
pub open spec fn spec_sleb(b: Seq<u8>, i: int, max: int) -> Option<int>
    decreases max,
{
    if i < 0 || i >= b.len() || max <= 0 {
        None
    } else if b[i] < 0x80 {
        Some(i + 1)
    } else {
        spec_sleb(b, i + 1, max - 1)
    }
}

/// Skips a signed LEB128 run.
fn sleb_skip(b: &Vec<u8>, i: usize, max: usize) -> (r: Option<usize>)
    ensures
        match r {
            Some(j) => spec_sleb(b@, i as int, max as int) == Some(j as int) && i < j
                <= b@.len(),
            None => spec_sleb(b@, i as int, max as int) is None,
        },
    decreases max,
{
    if i >= b.len() || max == 0 {
        return None;
    }
    if b[i] < 0x80 {
        Some(i + 1)
    } else {
        match sleb_skip(b, i + 1, max - 1) {
            Some(j) => Some(j),
            None => None,
        }
    }
}

/// A memory limits record: a flag byte, a minimum and an optional
/// maximum, both within the 64 Ki page bound and ordered.
pub open spec fn spec_limits(b: Seq<u8>, i: int) -> Option<int> {
    if i < 0 || i >= b.len() || b[i] > 1 {
        None
    } else {
        match spec_leb(b, i + 1, 0) {
            None => None,
            Some((min, j)) => if min > 65536 {
                None
            } else if b[i] == 0 {
                Some(j)
            } else {
                match spec_leb(b, j, 0) {
                    None => None,
                    Some((max, j2)) => if max > 65536 || min > max {
                        None
                    } else {
                        Some(j2)
                    },
                }
            },
        }
    }
}

/// Reads and checks a limits record.
fn parse_limits(b: &Vec<u8>, i: usize) -> (r: Option<usize>)
    ensures
        match r {
            Some(j) => spec_limits(b@, i as int) == Some(j as int) && i < j <= b@.len(),
            None => spec_limits(b@, i as int) is None,
        },
{
    if i >= b.len() {
        return None;
    }
    let flags = b[i];
    if flags > 1 {
        return None;
    }
    let (min, j) = match leb_u32(b, i + 1, 0) {
        Some(p) => p,
        None => {
            return None;
        },
    };
    proof {
        lemma_leb_bound(b@, i + 1, 0);
    }
    if min > 65536 {
        return None;
    }
    if flags == 0 {
        return Some(j);
    }
    let (max, j2) = match leb_u32(b, j, 0) {
        Some(p) => p,
        None => {
            return None;
        },
    };
    proof {
        lemma_leb_bound(b@, j as int, 0);
    }
    if max > 65536 || min > max {
        return None;
    }
    Some(j2)
}

} // verus!
// The module continues: expressions and sections.

verus! {

/// A block type byte: empty or one of the four value types.
pub open spec fn valid_blocktype(x: u8) -> bool {
    x == 0x40 || x == 0x7F || x == 0x7E || x == 0x7D || x == 0x7C
}

/// A run of `n` unsigned LEB128 values: its end position.
pub open spec fn spec_skip_lebs(b: Seq<u8>, i: int, n: nat) -> Option<int>
    decreases n,
{
    if n == 0 {
        Some(i)
    } else {
        match spec_leb(b, i, 0) {
            None => None,
            Some((v, j)) => spec_skip_lebs(b, j, (n - 1) as nat),
        }
    }
}

/// Skips `n` unsigned LEB128 values.
fn skip_lebs(b: &Vec<u8>, i: usize, n: u32) -> (r: Option<usize>)
    ensures
        match r {
            Some(j) => spec_skip_lebs(b@, i as int, n as nat) == Some(j as int) && i <= j,
            None => spec_skip_lebs(b@, i as int, n as nat) is None,
        },
    decreases n,
{
    if n == 0 {
        return Some(i);
    }
    match leb_u32(b, i, 0) {
        None => None,
        Some((v, j)) => {
            proof {
                lemma_leb_bound(b@, i as int, 0);
            }
            let r2 = skip_lebs(b, j, n - 1);
            proof {
                assert(spec_skip_lebs(b@, i as int, n as nat) == spec_skip_lebs(
                    b@,
                    j as int,
                    (n - 1) as nat,
                ));
            }
            r2
        },
    }
}

/// A run that stops short stays short one value later.
proof fn lemma_lebs_succ_none(b: Seq<u8>, i: int, n: nat)
    requires
        spec_skip_lebs(b, i, n) is None,
    ensures
        spec_skip_lebs(b, i, n + 1) is None,
    decreases n,
{
    if n > 0 {
        match spec_leb(b, i, 0) {
            None => {},
            Some((v, j)) => {
                lemma_lebs_succ_none(b, j, (n - 1) as nat);
            },
        }
    }
}

/// A structurally valid instruction sequence from `i`, closing its
/// blocks and ending the body exactly at `end` with a final `end`
/// opcode; memory instructions only with `mem_ok`.
pub open spec fn spec_expr(b: Seq<u8>, i: int, end: int, depth: int, mem_ok: bool) -> bool
    decreases end - i,
{
    if i < 0 || i >= end || end > b.len() {
        false
    } else {
        let op = b[i];
        if op == 0x0B {
            if depth == 0 {
                i + 1 == end
            } else {
                spec_expr(b, i + 1, end, depth - 1, mem_ok)
            }
        } else if op == 0x02 || op == 0x03 || op == 0x04 {
            i + 2 <= end && i + 1 < b.len() && valid_blocktype(b[i + 1]) && spec_expr(
                b,
                i + 2,
                end,
                depth + 1,
                mem_ok,
            )
        } else if op == 0x05 {
            depth >= 1 && spec_expr(b, i + 1, end, depth, mem_ok)
        } else if op == 0x0C || op == 0x0D || op == 0x10 || (0x20 <= op && op <= 0x24) {
            match spec_leb(b, i + 1, 0) {
                None => false,
                Some((n, j)) => i < j <= end && spec_expr(b, j, end, depth, mem_ok),
            }
        } else if op == 0x0E {
            match spec_leb(b, i + 1, 0) {
                None => false,
                Some((n, j)) => match spec_skip_lebs(b, j, n + 1) {
                    None => false,
                    Some(j2) => i < j2 <= end && spec_expr(b, j2, end, depth, mem_ok),
                },
            }
        } else if op == 0x11 {
            match spec_leb(b, i + 1, 0) {
                None => false,
                Some((n, j)) => j < b.len() && b[j] == 0 && i < j + 1 <= end && spec_expr(
                    b,
                    j + 1,
                    end,
                    depth,
                    mem_ok,
                ),
            }
        } else if op == 0x00 || op == 0x01 || op == 0x0F || op == 0x1A || op == 0x1B {
            spec_expr(b, i + 1, end, depth, mem_ok)
        } else if 0x28 <= op && op <= 0x3E {
            mem_ok && match spec_leb(b, i + 1, 0) {
                None => false,
                Some((a, j)) => match spec_leb(b, j, 0) {
                    None => false,
                    Some((o, j2)) => i < j2 <= end && spec_expr(b, j2, end, depth, mem_ok),
                },
            }
        } else if op == 0x3F || op == 0x40 {
            mem_ok && i + 1 < b.len() && b[i + 1] == 0 && i + 2 <= end && spec_expr(
                b,
                i + 2,
                end,
                depth,
                mem_ok,
            )
        } else if op == 0x41 || op == 0x42 {
            match spec_sleb(b, i + 1, if op == 0x41 { 5 } else { 10 }) {
                None => false,
                Some(j) => i < j <= end && spec_expr(b, j, end, depth, mem_ok),
            }
        } else if op == 0x43 {
            i + 5 <= end && spec_expr(b, i + 5, end, depth, mem_ok)
        } else if op == 0x44 {
            i + 9 <= end && spec_expr(b, i + 9, end, depth, mem_ok)
        } else if 0x45 <= op && op <= 0xBF {
            spec_expr(b, i + 1, end, depth, mem_ok)
        } else {
            false
        }
    }
}

/// Past this nesting depth no remaining bytes can close every block.
proof fn lemma_expr_depth(b: Seq<u8>, i: int, end: int, depth: int, mem_ok: bool)
    requires
        depth >= end - i,
        depth >= 1,
    ensures
        !spec_expr(b, i, end, depth, mem_ok),
    decreases end - i,
{
    if 0 <= i < end && end <= b.len() {
        let op = b[i];
        if op == 0x0B {
            if depth - 1 >= 1 {
                lemma_expr_depth(b, i + 1, end, depth - 1, mem_ok);
            } else {
                if i + 1 < end {
                    lemma_expr_depth(b, i + 1, end, depth, mem_ok);
                }
            }
        } else if op == 0x02 || op == 0x03 || op == 0x04 {
            if i + 2 <= end {
                lemma_expr_depth(b, i + 2, end, depth + 1, mem_ok);
            }
        } else if op == 0x05 {
            lemma_expr_depth(b, i + 1, end, depth, mem_ok);
        } else if op == 0x0C || op == 0x0D || op == 0x10 || (0x20 <= op && op <= 0x24) {
            match spec_leb(b, i + 1, 0) {
                None => {},
                Some((n, j)) => {
                    if i < j <= end {
                        lemma_expr_depth(b, j, end, depth, mem_ok);
                    }
                },
            }
        } else if op == 0x0E {
            match spec_leb(b, i + 1, 0) {
                None => {},
                Some((n, j)) => {
                    match spec_skip_lebs(b, j, n + 1) {
                        None => {},
                        Some(j2) => {
                            if i < j2 <= end {
                                lemma_expr_depth(b, j2, end, depth, mem_ok);
                            }
                        },
                    }
                },
            }
        } else if op == 0x11 {
            match spec_leb(b, i + 1, 0) {
                None => {},
                Some((n, j)) => {
                    if i < j + 1 <= end {
                        lemma_expr_depth(b, j + 1, end, depth, mem_ok);
                    }
                },
            }
        } else if op == 0x00 || op == 0x01 || op == 0x0F || op == 0x1A || op == 0x1B {
            lemma_expr_depth(b, i + 1, end, depth, mem_ok);
        } else if 0x28 <= op && op <= 0x3E {
            match spec_leb(b, i + 1, 0) {
                None => {},
                Some((a, j)) => {
                    match spec_leb(b, j, 0) {
                        None => {},
                        Some((o, j2)) => {
                            if i < j2 <= end {
                                lemma_expr_depth(b, j2, end, depth, mem_ok);
                            }
                        },
                    }
                },
            }
        } else if op == 0x3F || op == 0x40 {
            if i + 2 <= end {
                lemma_expr_depth(b, i + 2, end, depth, mem_ok);
            }
        } else if op == 0x41 || op == 0x42 {
            match spec_sleb(b, i + 1, if op == 0x41 { 5 } else { 10 }) {
                None => {},
                Some(j) => {
                    if i < j <= end {
                        lemma_expr_depth(b, j, end, depth, mem_ok);
                    }
                },
            }
        } else if op == 0x43 {
            if i + 5 <= end {
                lemma_expr_depth(b, i + 5, end, depth, mem_ok);
            }
        } else if op == 0x44 {
            if i + 9 <= end {
                lemma_expr_depth(b, i + 9, end, depth, mem_ok);
            }
        } else if 0x45 <= op && op <= 0xBF {
            lemma_expr_depth(b, i + 1, end, depth, mem_ok);
        }
    }
}

/// Checks an instruction sequence.
fn check_expr(b: &Vec<u8>, i: usize, end: usize, depth: usize, mem_ok: bool) -> (r: bool)
    requires
        end <= b@.len(),
    ensures
        r == spec_expr(b@, i as int, end as int, depth as int, mem_ok),
    decreases end - i,
{
    if i >= end {
        return false;
    }
    if depth >= end - i && depth >= 1 {
        proof {
            lemma_expr_depth(b@, i as int, end as int, depth as int, mem_ok);
        }
        return false;
    }
    let op = b[i];
    if op == 0x0B {
        if depth == 0 {
            i + 1 == end
        } else {
            check_expr(b, i + 1, end, depth - 1, mem_ok)
        }
    } else if op == 0x02 || op == 0x03 || op == 0x04 {
        if i + 1 < end && i + 1 < b.len() {
            let bt = b[i + 1];
            if bt == 0x40 || bt == 0x7F || bt == 0x7E || bt == 0x7D || bt == 0x7C {
                check_expr(b, i + 2, end, depth + 1, mem_ok)
            } else {
                false
            }
        } else {
            false
        }
    } else if op == 0x05 {
        depth >= 1 && check_expr(b, i + 1, end, depth, mem_ok)
    } else if op == 0x0C || op == 0x0D || op == 0x10 || (0x20 <= op && op <= 0x24) {
        match leb_u32(b, i + 1, 0) {
            None => false,
            Some((n, j)) => {
                proof {
                    lemma_leb_bound(b@, i + 1, 0);
                }
                i < j && j <= end && check_expr(b, j, end, depth, mem_ok)
            },
        }
    } else if op == 0x0E {
        match leb_u32(b, i + 1, 0) {
            None => false,
            Some((n, j)) => {
                proof {
                    lemma_leb_bound(b@, i + 1, 0);
                }
                match skip_lebs(b, j, n) {
                    None => {
                        proof {
                            lemma_lebs_succ_none(b@, j as int, n as nat);
                        }
                        false
                    },
                    Some(jm) => match leb_u32(b, jm, 0) {
                        None => {
                            proof {
                                reveal_lebs_tail(b@, j as int, n as nat, jm as int);
                            }
                            false
                        },
                        Some((v2, j2)) => {
                            proof {
                                lemma_leb_bound(b@, jm as int, 0);
                                reveal_lebs_tail(b@, j as int, n as nat, jm as int);
                            }
                            i < j2 && j2 <= end && check_expr(b, j2, end, depth, mem_ok)
                        },
                    },
                }
            },
        }
    } else if op == 0x11 {
        match leb_u32(b, i + 1, 0) {
            None => false,
            Some((n, j)) => {
                proof {
                    lemma_leb_bound(b@, i + 1, 0);
                }
                j < b.len() && b[j] == 0 && i < j + 1 && j + 1 <= end && check_expr(
                    b,
                    j + 1,
                    end,
                    depth,
                    mem_ok,
                )
            },
        }
    } else if op == 0x00 || op == 0x01 || op == 0x0F || op == 0x1A || op == 0x1B {
        check_expr(b, i + 1, end, depth, mem_ok)
    } else if 0x28 <= op && op <= 0x3E {
        if !mem_ok {
            return false;
        }
        match leb_u32(b, i + 1, 0) {
            None => false,
            Some((a, j)) => {
                proof {
                    lemma_leb_bound(b@, i + 1, 0);
                }
                match leb_u32(b, j, 0) {
                    None => false,
                    Some((o, j2)) => {
                        proof {
                            lemma_leb_bound(b@, j as int, 0);
                        }
                        i < j2 && j2 <= end && check_expr(b, j2, end, depth, mem_ok)
                    },
                }
            },
        }
    } else if op == 0x3F || op == 0x40 {
        mem_ok && i + 1 < b.len() && b[i + 1] == 0 && i + 1 < end && check_expr(
            b,
            i + 2,
            end,
            depth,
            mem_ok,
        )
    } else if op == 0x41 || op == 0x42 {
        let max: usize = if op == 0x41 {
            5
        } else {
            10
        };
        match sleb_skip(b, i + 1, max) {
            None => false,
            Some(j) => i < j && j <= end && check_expr(b, j, end, depth, mem_ok),
        }
    } else if op == 0x43 {
        end - i >= 5 && check_expr(b, i + 5, end, depth, mem_ok)
    } else if op == 0x44 {
        end - i >= 9 && check_expr(b, i + 9, end, depth, mem_ok)
    } else if 0x45 <= op && op <= 0xBF {
        check_expr(b, i + 1, end, depth, mem_ok)
    } else {
        false
    }
}

/// Unfolds one step of a LEB run for the `n + 1` formulation.
proof fn reveal_lebs_tail(b: Seq<u8>, j: int, n: nat, jm: int)
    requires
        spec_skip_lebs(b, j, n) == Some(jm),
    ensures
        spec_skip_lebs(b, j, n + 1) == (match spec_leb(b, jm, 0) {
            None => None::<int>,
            Some((v, j2)) => Some(j2),
        }),
    decreases n,
{
    if n == 0 {
        assert(jm == j);
        match spec_leb(b, jm, 0) {
            None => {},
            Some((v, j2)) => {
                assert(spec_skip_lebs(b, j2, 0) == Some(j2));
            },
        }
    } else {
        let (v0, j0) = spec_leb(b, j, 0).unwrap();
        reveal_lebs_tail(b, j0, (n - 1) as nat, jm);
    }
}

} // verus!
// The module ends: sections and the module check.

verus! {

/// The import entries of an import section payload: the count of
/// imported memories, with limits checked; other import kinds are
/// checked structurally.
pub open spec fn spec_imports(b: Seq<u8>, i: int, end: int, n: nat) -> Option<nat>
    decreases n,
{
    if n == 0 {
        if i == end {
            Some(0)
        } else {
            None
        }
    } else {
        match spec_leb(b, i, 0) {
            None => None,
            Some((len1, j1)) => if !(i < j1 && j1 + len1 <= end) {
                None
            } else {
                match spec_leb(b, j1 + len1, 0) {
                    None => None,
                    Some((len2, j2)) => if !(j2 + len2 < end) {
                        None
                    } else {
                        let kpos = j2 + len2;
                        let kind = b[kpos];
                        if kind == 0 {
                            match spec_leb(b, kpos + 1, 0) {
                                None => None,
                                Some((t, j3)) => if i < j3 <= end {
                                    spec_imports(b, j3, end, (n - 1) as nat)
                                } else {
                                    None
                                },
                            }
                        } else if kind == 1 {
                            if kpos + 1 < end && b[kpos + 1] == 0x70 {
                                match spec_limits(b, kpos + 2) {
                                    None => None,
                                    Some(j3) => if i < j3 <= end {
                                        spec_imports(b, j3, end, (n - 1) as nat)
                                    } else {
                                        None
                                    },
                                }
                            } else {
                                None
                            }
                        } else if kind == 2 {
                            match spec_limits(b, kpos + 1) {
                                None => None,
                                Some(j3) => if i < j3 <= end {
                                    match spec_imports(b, j3, end, (n - 1) as nat) {
                                        None => None,
                                        Some(m) => Some(m + 1),
                                    }
                                } else {
                                    None
                                },
                            }
                        } else if kind == 3 {
                            if kpos + 2 < end && (b[kpos + 1] == 0x7F || b[kpos + 1] == 0x7E
                                || b[kpos + 1] == 0x7D || b[kpos + 1] == 0x7C) && b[kpos + 2]
                                <= 1 && i < kpos + 3 <= end {
                                spec_imports(b, kpos + 3, end, (n - 1) as nat)
                            } else {
                                None
                            }
                        } else {
                            None
                        }
                    },
                }
            },
        }
    }
}

/// The memory entries of a memory section payload.
pub open spec fn spec_memories(b: Seq<u8>, i: int, end: int, n: nat) -> bool
    decreases n,
{
    if n == 0 {
        i == end
    } else {
        match spec_limits(b, i) {
            None => false,
            Some(j) => i < j <= end && spec_memories(b, j, end, (n - 1) as nat)
        }
    }
}

/// The local declarations of a code entry: their end position.
pub open spec fn spec_locals(b: Seq<u8>, i: int, n: nat) -> Option<int>
    decreases n,
{
    if n == 0 {
        Some(i)
    } else {
        match spec_leb(b, i, 0) {
            None => None,
            Some((c, j)) => if j < b.len() && (b[j] == 0x7F || b[j] == 0x7E || b[j] == 0x7D
                || b[j] == 0x7C) {
                spec_locals(b, j + 1, (n - 1) as nat)
            } else {
                None
            },
        }
    }
}

/// The code entries of a code section payload: each body frames its
/// locals and a block-balanced expression.
pub open spec fn spec_code(b: Seq<u8>, i: int, end: int, n: nat, mem_ok: bool) -> bool
    decreases n,
{
    if n == 0 {
        i == end
    } else {
        match spec_leb(b, i, 0) {
            None => false,
            Some((size, j)) => i < j && j + size <= end && {
                let bend = j + size;
                match spec_leb(b, j, 0) {
                    None => false,
                    Some((nl, j2)) => match spec_locals(b, j2, nl) {
                        None => false,
                        Some(j3) => j3 < bend && spec_expr(b, j3, bend, 0, mem_ok)
                            && spec_code(b, bend, end, (n - 1) as nat, mem_ok),
                    },
                }
            },
        }
    }
}

/// The data entries of a data section payload: each names an existing
/// memory and carries a constant offset expression and its bytes.
pub open spec fn spec_data(b: Seq<u8>, i: int, end: int, n: nat, mems: nat) -> bool
    decreases n,
{
    if n == 0 {
        i == end
    } else {
        match spec_leb(b, i, 0) {
            None => false,
            Some((mi, j)) => mi < mems && {
                let o = (if j < b.len() && b[j] == 0x41 {
                    spec_sleb(b, j + 1, 5)
                } else if j < b.len() && b[j] == 0x23 {
                    match spec_leb(b, j + 1, 0) {
                        None => None,
                        Some((g, jg)) => Some(jg),
                    }
                } else {
                    None
                });
                match o {
                    None => false,
                    Some(j2) => j2 < end && b[j2] == 0x0B && {
                        match spec_leb(b, j2 + 1, 0) {
                            None => false,
                            Some((len, j3)) => i < j3 + len <= end && j3 + len > i
                                && spec_data(b, j3 + len, end, (n - 1) as nat, mems),
                        }
                    },
                }
            },
        }
    }
}

/// The section walk: ascending non-custom section ids, each section's
/// payload exactly framed, memory count at most one, and the import,
/// memory, code and data sections checked in detail.
pub open spec fn spec_sections(b: Seq<u8>, i: int, last: int, mems: nat) -> bool
    decreases b.len() - i,
{
    if i == b.len() {
        true
    } else if i < 0 || i > b.len() {
        false
    } else {
        let id = b[i];
        id <= 11 && match spec_leb(b, i + 1, 0) {
            None => false,
            Some((sz, j)) => i < j && j + sz <= b.len() && {
                let pend = j + sz;
                if id == 0 {
                    spec_sections(b, pend, last, mems)
                } else {
                    id > last && {
                        if id == 2 {
                            match spec_leb(b, j, 0) {
                                None => false,
                                Some((n, jj)) => jj <= pend && match spec_imports(
                                    b,
                                    jj,
                                    pend,
                                    n,
                                ) {
                                    None => false,
                                    Some(mc) => mems + mc <= 1 && spec_sections(
                                        b,
                                        pend,
                                        id as int,
                                        mems + mc,
                                    ),
                                },
                            }
                        } else if id == 5 {
                            match spec_leb(b, j, 0) {
                                None => false,
                                Some((n, jj)) => jj <= pend && spec_memories(b, jj, pend, n)
                                    && mems + n <= 1 && spec_sections(
                                    b,
                                    pend,
                                    id as int,
                                    mems + n,
                                ),
                            }
                        } else if id == 10 {
                            match spec_leb(b, j, 0) {
                                None => false,
                                Some((n, jj)) => jj <= pend && spec_code(
                                    b,
                                    jj,
                                    pend,
                                    n,
                                    mems > 0,
                                ) && spec_sections(b, pend, id as int, mems),
                            }
                        } else if id == 11 {
                            match spec_leb(b, j, 0) {
                                None => false,
                                Some((n, jj)) => jj <= pend && spec_data(b, jj, pend, n, mems)
                                    && spec_sections(b, pend, id as int, mems),
                            }
                        } else {
                            spec_sections(b, pend, id as int, mems)
                        }
                    }
                }
            },
        }
    }
}

/// A well-formed module: the magic header and version, then the
/// sections.
pub open spec fn spec_module_ok(b: Seq<u8>) -> bool {
    &&& b.len() >= 8
    &&& b[0] == 0
    &&& b[1] == 0x61
    &&& b[2] == 0x73
    &&& b[3] == 0x6D
    &&& b[4] == 1
    &&& b[5] == 0
    &&& b[6] == 0
    &&& b[7] == 0
    &&& spec_sections(b, 8, 0, 0)
}

} // verus!
// The executable checks mirror the section grammar.

verus! {

/// Checks an import section payload; the imported memory count.
fn check_imports(b: &Vec<u8>, i: usize, end: usize, n: u32) -> (r: Option<u32>)
    requires
        end <= b@.len(),
    ensures
        match r {
            Some(mc) => spec_imports(b@, i as int, end as int, n as nat) == Some(mc as nat)
                && mc <= n,
            None => spec_imports(b@, i as int, end as int, n as nat) is None,
        },
    decreases n,
{
    if n == 0 {
        if i == end {
            return Some(0);
        }
        return None;
    }
    let (len1, j1) = match leb_u32(b, i, 0) {
        Some(p) => p,
        None => {
            return None;
        },
    };
    proof {
        lemma_leb_bound(b@, i as int, 0);
    }
    if !(len1 as usize <= end && j1 <= end - len1 as usize) {
        return None;
    }
    let (len2, j2) = match leb_u32(b, j1 + len1 as usize, 0) {
        Some(p) => p,
        None => {
            return None;
        },
    };
    proof {
        lemma_leb_bound(b@, j1 as int + len1 as int, 0);
    }
    if !((len2 as usize) < end && j2 < end - len2 as usize) {
        return None;
    }
    let kpos = j2 + len2 as usize;
    let kind = b[kpos];
    if kind == 0 {
        let (t, j3) = match leb_u32(b, kpos + 1, 0) {
            Some(p) => p,
            None => {
                return None;
            },
        };
        proof {
            lemma_leb_bound(b@, kpos + 1, 0);
        }
        if i < j3 && j3 <= end {
            check_imports(b, j3, end, n - 1)
        } else {
            None
        }
    } else if kind == 1 {
        if kpos + 1 < end && b[kpos + 1] == 0x70 {
            match parse_limits(b, kpos + 2) {
                None => None,
                Some(j3) => {
                    if i < j3 && j3 <= end {
                        check_imports(b, j3, end, n - 1)
                    } else {
                        None
                    }
                },
            }
        } else {
            None
        }
    } else if kind == 2 {
        match parse_limits(b, kpos + 1) {
            None => None,
            Some(j3) => {
                if i < j3 && j3 <= end {
                    match check_imports(b, j3, end, n - 1) {
                        None => None,
                        Some(m) => Some(m + 1),
                    }
                } else {
                    None
                }
            },
        }
    } else if kind == 3 {
        if end - kpos > 2 {
            let vt = b[kpos + 1];
            if (vt == 0x7F || vt == 0x7E || vt == 0x7D || vt == 0x7C) && b[kpos + 2] <= 1 && i
                < kpos + 3 && kpos + 3 <= end {
                check_imports(b, kpos + 3, end, n - 1)
            } else {
                None
            }
        } else {
            None
        }
    } else {
        None
    }
}

/// Checks a memory section payload.
fn check_memories(b: &Vec<u8>, i: usize, end: usize, n: u32) -> (r: bool)
    requires
        end <= b@.len(),
    ensures
        r == spec_memories(b@, i as int, end as int, n as nat),
    decreases n,
{
    if n == 0 {
        return i == end;
    }
    match parse_limits(b, i) {
        None => false,
        Some(j) => i < j && j <= end && check_memories(b, j, end, n - 1),
    }
}

/// Skips the local declarations of a code entry.
fn check_locals(b: &Vec<u8>, i: usize, n: u32) -> (r: Option<usize>)
    ensures
        match r {
            Some(j) => spec_locals(b@, i as int, n as nat) == Some(j as int) && i <= j,
            None => spec_locals(b@, i as int, n as nat) is None,
        },
    decreases n,
{
    if n == 0 {
        return Some(i);
    }
    let (c, j) = match leb_u32(b, i, 0) {
        Some(p) => p,
        None => {
            return None;
        },
    };
    proof {
        lemma_leb_bound(b@, i as int, 0);
    }
    if j < b.len() {
        let vt = b[j];
        if vt == 0x7F || vt == 0x7E || vt == 0x7D || vt == 0x7C {
            check_locals(b, j + 1, n - 1)
        } else {
            None
        }
    } else {
        None
    }
}

/// Checks a code section payload.
fn check_code(b: &Vec<u8>, i: usize, end: usize, n: u32, mem_ok: bool) -> (r: bool)
    requires
        end <= b@.len(),
    ensures
        r == spec_code(b@, i as int, end as int, n as nat, mem_ok),
    decreases n,
{
    if n == 0 {
        return i == end;
    }
    let (size, j) = match leb_u32(b, i, 0) {
        Some(p) => p,
        None => {
            return false;
        },
    };
    proof {
        lemma_leb_bound(b@, i as int, 0);
    }
    if !(i < j && size as usize <= end && j <= end - size as usize) {
        return false;
    }
    let bend = j + size as usize;
    let (nl, j2) = match leb_u32(b, j, 0) {
        Some(p) => p,
        None => {
            return false;
        },
    };
    proof {
        lemma_leb_bound(b@, j as int, 0);
    }
    match check_locals(b, j2, nl) {
        None => false,
        Some(j3) => j3 < bend && check_expr(b, j3, bend, 0, mem_ok) && check_code(
            b,
            bend,
            end,
            n - 1,
            mem_ok,
        ),
    }
}

/// Checks a data section payload.
fn check_data(b: &Vec<u8>, i: usize, end: usize, n: u32, mems: u32) -> (r: bool)
    requires
        end <= b@.len(),
    ensures
        r == spec_data(b@, i as int, end as int, n as nat, mems as nat),
    decreases n,
{
    if n == 0 {
        return i == end;
    }
    let (mi, j) = match leb_u32(b, i, 0) {
        Some(p) => p,
        None => {
            return false;
        },
    };
    proof {
        lemma_leb_bound(b@, i as int, 0);
    }
    if !(mi < mems) {
        return false;
    }
    let o: Option<usize> = if j < b.len() && b[j] == 0x41 {
        sleb_skip(b, j + 1, 5)
    } else if j < b.len() && b[j] == 0x23 {
        match leb_u32(b, j + 1, 0) {
            None => None,
            Some((g, jg)) => {
                proof {
                    lemma_leb_bound(b@, j + 1, 0);
                }
                Some(jg)
            },
        }
    } else {
        None
    };
    match o {
        None => false,
        Some(j2) => {
            if !(j2 < end && b[j2] == 0x0B) {
                return false;
            }
            let (len, j3) = match leb_u32(b, j2 + 1, 0) {
                Some(p) => p,
                None => {
                    return false;
                },
            };
            proof {
                lemma_leb_bound(b@, j2 + 1, 0);
            }
            if !(len as usize <= end && j3 <= end - len as usize && j3 + len as usize > i) {
                return false;
            }
            check_data(b, j3 + len as usize, end, n - 1, mems)
        },
    }
}

/// Walks the sections from position `i`.
fn check_sections(b: &Vec<u8>, i: usize, last: u8, mems: u32) -> (r: bool)
    requires
        mems <= 1,
    ensures
        r == spec_sections(b@, i as int, last as int, mems as nat),
    decreases b@.len() - i,
{
    if i == b.len() {
        return true;
    }
    if i > b.len() {
        return false;
    }
    let id = b[i];
    if id > 11 {
        return false;
    }
    let (sz, j) = match leb_u32(b, i + 1, 0) {
        Some(p) => p,
        None => {
            return false;
        },
    };
    proof {
        lemma_leb_bound(b@, i + 1, 0);
    }
    if !(i < j && sz as usize <= b.len() && j <= b.len() - sz as usize) {
        return false;
    }
    let pend = j + sz as usize;
    if id == 0 {
        return check_sections(b, pend, last, mems);
    }
    if !(id > last) {
        return false;
    }
    if id == 2 {
        let (n, jj) = match leb_u32(b, j, 0) {
            Some(p) => p,
            None => {
                return false;
            },
        };
        proof {
            lemma_leb_bound(b@, j as int, 0);
        }
        if !(jj <= pend) {
            return false;
        }
        match check_imports(b, jj, pend, n) {
            None => false,
            Some(mc) => mc <= 1 && mems + mc <= 1 && check_sections(b, pend, id, mems + mc),
        }
    } else if id == 5 {
        let (n, jj) = match leb_u32(b, j, 0) {
            Some(p) => p,
            None => {
                return false;
            },
        };
        proof {
            lemma_leb_bound(b@, j as int, 0);
        }
        if !(jj <= pend) {
            return false;
        }
        if !check_memories(b, jj, pend, n) {
            return false;
        }
        if !(n <= 1 && mems + n <= 1) {
            proof {
                assert(mems as nat + n as nat > 1);
            }
            return false;
        }
        check_sections(b, pend, id, mems + n)
    } else if id == 10 {
        let (n, jj) = match leb_u32(b, j, 0) {
            Some(p) => p,
            None => {
                return false;
            },
        };
        proof {
            lemma_leb_bound(b@, j as int, 0);
        }
        if !(jj <= pend) {
            return false;
        }
        check_code(b, jj, pend, n, mems > 0) && check_sections(b, pend, id, mems)
    } else if id == 11 {
        let (n, jj) = match leb_u32(b, j, 0) {
            Some(p) => p,
            None => {
                return false;
            },
        };
        proof {
            lemma_leb_bound(b@, j as int, 0);
        }
        if !(jj <= pend) {
            return false;
        }
        check_data(b, jj, pend, n, mems) && check_sections(b, pend, id, mems)
    } else {
        check_sections(b, pend, id, mems)
    }
}

/// Checks that a binary is a structurally well-formed module: the
/// magic header, ascending exactly-framed sections, at most one memory
/// within the page bounds, no data segment without its memory, and
/// block-balanced code whose memory instructions require a memory.
pub fn compile(wasm: Vec<u8>) -> (r: Result<(), CompileError>)
    ensures
        r.is_ok() <==> spec_module_ok(wasm@),
{
    let b = wasm;
    if b.len() < 8 {
        return Err(CompileError);
    }
    if !(b[0] == 0 && b[1] == 0x61 && b[2] == 0x73 && b[3] == 0x6D && b[4] == 1 && b[5] == 0
        && b[6] == 0 && b[7] == 0) {
        return Err(CompileError);
    }
    if check_sections(&b, 8, 0, 0) {
        Ok(())
    } else {
        Err(CompileError)
    }
}

} // verus!
