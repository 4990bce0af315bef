//! Crate-stack rearrangement.
//!
//! The input draws a set of stacks (`[X]` cells in four-column slots,
//! bottom rows last), then lists commands `move N from F to T`.  One
//! solver moves crates one at a time (the moved block arrives
//! reversed), the other moves the block in one grab (order kept).
//! The answer is the top crate of every stack, left to right, with a
//! space for an empty stack.

use vstd::prelude::*;
use vstd::string::StrSliceExecFns;
use vstd::string::StringSliceAdditionalSpecFns;

use crate::errors::SolveError;
use crate::text::all_digits;
use crate::text::digits_val;
use crate::text::lemma_digits_val_nonneg;
use crate::text::parse_u32;
use crate::text::spec_lines;
use crate::text::spec_trim;
use crate::text::split_lines;
use crate::text::trim;
use crate::text::views;

verus! {

/// The bytes of `move `.
pub open spec fn move_prefix() -> Seq<u8> {
    seq![109u8, 111u8, 118u8, 101u8, 32u8]
}

/// The bytes of ` from `.
pub open spec fn from_infix() -> Seq<u8> {
    seq![32u8, 102u8, 114u8, 111u8, 109u8, 32u8]
}

/// The bytes of ` to `.
pub open spec fn to_infix() -> Seq<u8> {
    seq![32u8, 116u8, 111u8, 32u8]
}

/// `l` reads `move A from B to C` with `a` the digits of the count
/// and `b`, `c` single stack digits.
pub open spec fn is_move_line(l: Seq<u8>, a: Seq<u8>, b: Seq<u8>, c: Seq<u8>) -> bool {
    &&& l == move_prefix() + a + from_infix() + b + to_infix() + c
    &&& a.len() >= 1
    &&& all_digits(a)
    &&& b.len() == 1
    &&& all_digits(b)
    &&& c.len() == 1
    &&& all_digits(c)
}

/// A move line decomposes in only one way.
pub proof fn lemma_move_line_unique(l: Seq<u8>, a: Seq<u8>, b: Seq<u8>, c: Seq<u8>)
    requires
        is_move_line(l, a, b, c),
    ensures
        a =~= l.subrange(5, l.len() - 12),
        b =~= l.subrange(l.len() - 6, l.len() - 5),
        c =~= l.subrange(l.len() - 1, l.len() as int),
{
    assert(l.len() == a.len() + 17);
}

/// Relies on `regex::Regex::new` and `regex::Regex::captures` with the
/// anchored pattern `^move ([0-9]+) from ([0-9]) to ([0-9])$`: a match
/// returns exactly the three digit groups of the line, and a line that
/// has no such decomposition does not match.
#[verifier::external_body]
fn captures_move(line: &Vec<u8>) -> (r: Option<(Vec<u8>, Vec<u8>, Vec<u8>)>)
    ensures
        match r {
            Some(g) => is_move_line(line@, g.0@, g.1@, g.2@),
            None => !(exists|a: Seq<u8>, b: Seq<u8>, c: Seq<u8>| is_move_line(line@, a, b, c)),
        },
{
    let text = match std::str::from_utf8(line.as_slice()) {
        Ok(t) => t,
        Err(_) => return None,
    };
    let re = regex::Regex::new("^move ([0-9]+) from ([0-9]) to ([0-9])$").unwrap();
    re.captures(text).map(
        |caps| {
            (
                caps.get(1).unwrap().as_str().as_bytes().to_vec(),
                caps.get(2).unwrap().as_str().as_bytes().to_vec(),
                caps.get(3).unwrap().as_str().as_bytes().to_vec(),
            )
        },
    )
}

/// How many four-column stack slots a drawing line spans.
pub open spec fn spec_count_stacks(l: Seq<u8>) -> int {
    (l.len() as int + 1) / 4
}

/// The crate letter in slot `num` of a drawing line, if any.
pub open spec fn spec_item_on_stack(num: int, l: Seq<u8>) -> Option<u8> {
    let pos = num * 4 + 1;
    if 0 <= pos < l.len() && 65 <= l[pos] <= 90 {
        Some(l[pos])
    } else {
        None
    }
}

/// What one drawing line leaves in slot `i`, given the slot's old
/// contents `base`: a crate letter there goes under the stack.
pub open spec fn slot_apply(l: Seq<u8>, i: int, base: Seq<u8>) -> Seq<u8> {
    match spec_item_on_stack(i, l) {
        Some(ch) => if i < spec_count_stacks(l) {
            seq![ch] + base
        } else {
            base
        },
        None => base,
    }
}

/// One drawing line applied to the stacks: each slot's crate letter,
/// if present, goes under its stack, and the stack list grows to the
/// line's slot count.
pub open spec fn spec_update_stacks(l: Seq<u8>, st: Seq<Seq<u8>>) -> Seq<Seq<u8>> {
    let count = spec_count_stacks(l);
    let n = if st.len() >= count {
        st.len() as int
    } else {
        count
    };
    Seq::new(
        n as nat,
        |i: int|
            slot_apply(
                l,
                i,
                if i < st.len() {
                    st[i]
                } else {
                    Seq::empty()
                },
            ),
    )
}

/// One move applied to the stacks: the top `cnt` crates leave stack
/// `from` and arrive on stack `to`, reversed when `rev` holds.
/// `None` when a stack index is out of range or the stack is short.
pub open spec fn spec_apply_move(
    st: Seq<Seq<u8>>,
    cnt: int,
    from: int,
    to: int,
    rev: bool,
) -> Option<Seq<Seq<u8>>> {
    if !(0 <= from < st.len()) || !(0 <= to < st.len()) || !(0 <= cnt <= st[from].len()) {
        None
    } else {
        let f = st[from];
        let keep = f.take(f.len() - cnt);
        let block = f.skip(f.len() - cnt);
        let moved = if rev {
            block.reverse()
        } else {
            block
        };
        let st1 = st.update(from, keep);
        Some(st1.update(to, st1[to] + moved))
    }
}

/// Replays the lines from `i` on.  Before the drawing ends
/// (`in_moves` false) each line feeds the stack drawing; the first
/// line whose trimmed text does not start with `[` switches to move
/// mode after it is applied.  In move mode, lines that are not move
/// commands are skipped, and a command with a zero stack digit, an
/// out-of-range stack, a short stack, or a count beyond `u32` is
/// rejected.
pub open spec fn spec_run(
    lines: Seq<Seq<u8>>,
    i: int,
    st: Seq<Seq<u8>>,
    in_moves: bool,
    rev: bool,
) -> Result<Seq<Seq<u8>>, SolveError>
    decreases lines.len() - i,
    when 0 <= i <= lines.len()
{
    if i >= lines.len() {
        Ok(st)
    } else {
        let l = lines[i];
        if !in_moves {
            let t = spec_trim(l);
            if t.len() == 0 {
                Err(SolveError::Malformed)
            } else {
                spec_run(lines, i + 1, spec_update_stacks(l, st), t[0] != 91, rev)
            }
        } else {
            if exists|a: Seq<u8>, b: Seq<u8>, c: Seq<u8>| is_move_line(l, a, b, c) {
                let (a, b, c) = choose|a: Seq<u8>, b: Seq<u8>, c: Seq<u8>| is_move_line(l, a, b, c);
                if digits_val(a) > u32::MAX || b[0] == 48 || c[0] == 48 {
                    Err(SolveError::Malformed)
                } else {
                    match spec_apply_move(st, digits_val(a), b[0] - 49, c[0] - 49, rev) {
                        None => Err(SolveError::Malformed),
                        Some(st2) => spec_run(lines, i + 1, st2, true, rev),
                    }
                }
            } else {
                spec_run(lines, i + 1, st, true, rev)
            }
        }
    }
}

/// The answer string: each stack's top crate, or a space.
pub open spec fn spec_result(st: Seq<Seq<u8>>) -> Seq<char> {
    Seq::new(
        st.len(),
        |i: int|
            if st[i].len() == 0 {
                ' '
            } else {
                st[i].last() as char
            },
    )
}

/// The whole first solver: replay with reversing moves, then read the
/// stack tops.
pub open spec fn spec_solve(input: Seq<u8>) -> Result<Seq<char>, SolveError> {
    match spec_run(spec_lines(input), 0, Seq::empty(), false, true) {
        Err(e) => Err(e),
        Ok(st) => Ok(spec_result(st)),
    }
}

/// The whole second solver: replay with order-keeping moves, then
/// read the stack tops.
pub open spec fn spec_solve2(input: Seq<u8>) -> Result<Seq<char>, SolveError> {
    match spec_run(spec_lines(input), 0, Seq::empty(), false, false) {
        Err(e) => Err(e),
        Ok(st) => Ok(spec_result(st)),
    }
}

/// How many four-column stack slots a drawing line spans.
pub fn count_stacks(line: &Vec<u8>) -> (r: usize)
    ensures
        r == spec_count_stacks(line@),
{
    if line.len() == usize::MAX {
        line.len() / 4 + 1
    } else {
        (line.len() + 1) / 4
    }
}

/// The crate letter in slot `num` of a drawing line, if any.
pub fn item_on_stack(num: usize, line: &Vec<u8>) -> (r: Option<u8>)
    requires
        num <= (usize::MAX - 1) / 4,
    ensures
        r == spec_item_on_stack(num as int, line@),
{
    let pos = num * 4 + 1;
    if pos < line.len() && 65 <= line[pos] && line[pos] <= 90 {
        Some(line[pos])
    } else {
        None
    }
}

/// Feeds one drawing line into the stacks.
pub fn update_stacks(line: &Vec<u8>, stacks: &mut Vec<Vec<u8>>)
    ensures
        views(final(stacks)@) == spec_update_stacks(line@, views(old(stacks)@)),
{
    let ghost st0 = views(old(stacks)@);
    let ghost target = spec_update_stacks(line@, st0);
    let line_len: usize = line.len();
    let stack_count = count_stacks(line);
    proof {
        assert forall|k: int| 0 <= k < stacks@.len() implies views(stacks@)[k] == stacks@[k]@ by {}
    }
    while stacks.len() < stack_count
        invariant
            stacks@.len() >= st0.len(),
            stacks@.len() <= if st0.len() >= stack_count as int {
                st0.len() as int
            } else {
                stack_count as int
            },
            forall|k: int| 0 <= k < st0.len() ==> stacks@[k]@ == st0[k],
            forall|k: int|
                st0.len() <= k < stacks@.len() ==> stacks@[k]@ == Seq::<u8>::empty(),
        decreases stack_count - stacks.len(),
    {
        stacks.push(Vec::new());
    }
    let ghost n = target.len() as int;
    proof {
        assert(stacks@.len() == n);
    }
    let mut i: usize = 0;
    while i < stack_count
        invariant
            i <= stack_count,
            stack_count as int <= stacks@.len() == n == target.len(),
            forall|k: int| 0 <= k < i ==> (#[trigger] stacks@[k])@ == target[k],
            forall|k: int| i <= k < n ==> (#[trigger] stacks@[k])@ == (if k < st0.len() {
                st0[k]
            } else {
                Seq::<u8>::empty()
            }),
        decreases stack_count - i,
    {
        proof {
            assert(line@.len() == line_len);
            vstd::arithmetic::div_mod::lemma_div_is_ordered(
                line@.len() as int + 1,
                usize::MAX as int + 1,
                4,
            );
        }
        match item_on_stack(i, line) {
            Some(ch) => {
                stacks[i].insert(0, ch);
                proof {
                    assert(stacks@[i as int]@ =~= target[i as int]);
                }
            },
            None => {
                proof {
                    assert(stacks@[i as int]@ =~= target[i as int]);
                }
            },
        }
        i = i + 1;
    }
    proof {
        assert forall|k: int| 0 <= k < stacks@.len() implies views(stacks@)[k] == target[k] by {}
        assert(views(stacks@) =~= target);
    }
}

/// Moves `count` crates one at a time from one stack to another: the
/// moved block arrives in reversed order.
pub fn move_crates(count: u32, from_stack: &mut Vec<u8>, to_stack: &mut Vec<u8>)
    requires
        count <= old(from_stack)@.len(),
    ensures
        final(from_stack)@ == old(from_stack)@.take(old(from_stack)@.len() - count),
        final(to_stack)@ == old(to_stack)@ + old(from_stack)@.skip(
            old(from_stack)@.len() - count,
        ).reverse(),
{
    let ghost f0 = from_stack@;
    let ghost t0 = to_stack@;
    let mut k: u32 = 0;
    while k < count
        invariant
            k <= count <= f0.len(),
            from_stack@ == f0.take(f0.len() - k),
            to_stack@ == t0 + f0.skip(f0.len() - k).reverse(),
        decreases count - k,
    {
        match from_stack.pop() {
            Some(b) => {
                to_stack.push(b);
            },
            None => {
                proof {
                    assert(false);
                }
            },
        }
        proof {
            assert(from_stack@ =~= f0.take(f0.len() - (k + 1)));
            assert(to_stack@ =~= t0 + f0.skip(f0.len() - (k + 1)).reverse());
        }
        k = k + 1;
    }
}

/// Applies one validated move command to the stacks.
fn apply_move(stacks: &mut Vec<Vec<u8>>, cnt: u32, from: usize, to: usize, rev: bool) -> (r:
    Result<(), SolveError>)
    ensures
        match spec_apply_move(views(old(stacks)@), cnt as int, from as int, to as int, rev) {
            Some(st2) => r is Ok && views(final(stacks)@) == st2,
            None => r is Err,
        },
{
    let ghost st0 = views(stacks@);
    proof {
        assert forall|j: int| 0 <= j < stacks@.len() implies views(stacks@)[j] == stacks@[j]@ by {}
    }
    if from >= stacks.len() || to >= stacks.len() {
        return Err(SolveError::Malformed);
    }
    if (cnt as usize) > stacks[from].len() {
        return Err(SolveError::Malformed);
    }
    let ghost f = st0[from as int];
    let ghost keep = f.take(f.len() - cnt);
    let ghost block = f.skip(f.len() - cnt);
    // Pop the block off; `ws` holds it top first.
    let mut ws: Vec<u8> = Vec::new();
    let mut k: u32 = 0;
    proof {
        assert(f.take(f.len() - 0) =~= f);
        assert(f.skip(f.len() - 0).reverse() =~= Seq::<u8>::empty());
    }
    while k < cnt
        invariant
            k <= cnt <= f.len(),
            from < stacks@.len() == st0.len(),
            to < stacks@.len(),
            forall|j: int| 0 <= j < st0.len() && j != from ==> stacks@[j]@ == st0[j],
            stacks@[from as int]@ == f.take(f.len() - k),
            ws@ == f.skip(f.len() - k).reverse(),
        decreases cnt - k,
    {
        match stacks[from].pop() {
            Some(b) => {
                ws.push(b);
            },
            None => {
                proof {
                    assert(false);
                }
            },
        }
        proof {
            assert(stacks@[from as int]@ =~= f.take(f.len() - (k + 1)));
            assert(ws@ =~= f.skip(f.len() - (k + 1)).reverse());
        }
        k = k + 1;
    }
    let ghost st1 = st0.update(from as int, keep);
    let ghost moved = if rev {
        block.reverse()
    } else {
        block
    };
    proof {
        assert forall|j: int| 0 <= j < st1.len() implies stacks@[j]@ == st1[j] by {}
    }
    if rev {
        // Drop the block on in pop order: it arrives reversed.
        let mut j: usize = 0;
        proof {
            assert(st1[to as int] + ws@.take(0) =~= st1[to as int]);
        }
        while j < ws.len()
            invariant
                j <= ws@.len(),
                to < stacks@.len() == st1.len(),
                ws@ == block.reverse(),
                forall|m: int| 0 <= m < st1.len() && m != to ==> stacks@[m]@ == st1[m],
                stacks@[to as int]@ == st1[to as int] + ws@.take(j as int),
            decreases ws@.len() - j,
        {
            let b = ws[j];
            stacks[to].push(b);
            proof {
                assert(stacks@[to as int]@ =~= st1[to as int] + ws@.take(j + 1));
            }
            j = j + 1;
        }
        proof {
            assert(ws@.take(ws@.len() as int) =~= ws@);
        }
    } else {
        // Pop the block back off the workspace: order is restored.
        let ghost w = ws@;
        let mut m: u32 = 0;
        proof {
            assert(w.skip(w.len() - 0).reverse() =~= Seq::<u8>::empty());
            assert(st1[to as int] + w.skip(w.len() - 0).reverse() =~= st1[to as int]);
            assert(ws@ =~= w.take(w.len() - 0));
        }
        while m < cnt
            invariant
                m <= cnt == w.len(),
                to < stacks@.len() == st1.len(),
                w == block.reverse(),
                ws@ == w.take(w.len() - m),
                forall|n: int| 0 <= n < st1.len() && n != to ==> stacks@[n]@ == st1[n],
                stacks@[to as int]@ == st1[to as int] + w.skip(w.len() - m).reverse(),
            decreases cnt - m,
        {
            match ws.pop() {
                Some(b) => {
                    stacks[to].push(b);
                },
                None => {
                    proof {
                        assert(false);
                    }
                },
            }
            proof {
                assert(ws@ =~= w.take(w.len() - (m + 1)));
                assert(st1[to as int] + w.skip(w.len() - (m + 1)).reverse() =~= (st1[to as int]
                    + w.skip(w.len() - m).reverse()).push(w[w.len() - (m + 1)]));
                assert(stacks@[to as int]@ =~= st1[to as int] + w.skip(
                    w.len() - (m + 1),
                ).reverse());
            }
            m = m + 1;
        }
        proof {
            assert(w.skip(w.len() - cnt) =~= w);
            assert(w.reverse() =~= block);
            assert(block.reverse().reverse() =~= block);
        }
    }
    proof {
        let st2 = st1.update(to as int, st1[to as int] + moved);
        assert(stacks@[to as int]@ == st1[to as int] + moved);
        assert forall|j: int| 0 <= j < stacks@.len() implies views(stacks@)[j] == st2[j] by {}
        assert(views(stacks@) =~= st2);
    }
    Ok(())
}


/// Reads the answer: each stack's top crate, or a space.
pub fn get_result(stacks: &Vec<Vec<u8>>) -> (r: String)
    ensures
        r@ == spec_result(views(stacks@)),
{
    let mut result = String::new();
    let mut i: usize = 0;
    while i < stacks.len()
        invariant
            i <= stacks@.len(),
            result@ == spec_result(views(stacks@)).take(i as int),
        decreases stacks@.len() - i,
    {
        let c: char = if stacks[i].len() == 0 {
            ' '
        } else {
            stacks[i][stacks[i].len() - 1] as char
        };
        push_char(&mut result, c);
        proof {
            assert(result@ =~= spec_result(views(stacks@)).take(i + 1));
        }
        i = i + 1;
    }
    proof {
        assert(spec_result(views(stacks@)).take(stacks@.len() as int) =~= spec_result(
            views(stacks@),
        ));
    }
    result
}

/// Relies on `String::push`: appends exactly the one character.
#[verifier::external_body]
fn push_char(s: &mut String, c: char)
    ensures
        final(s)@ == old(s)@.push(c),
{
    s.push(c)
}

fn run_moves(lines: &Vec<Vec<u8>>, rev: bool) -> (r: Result<String, SolveError>)
    ensures
        match spec_run(views(lines@), 0, Seq::empty(), false, rev) {
            Err(e) => r == Err::<String, SolveError>(e),
            Ok(st) => r is Ok && (r matches Ok(s) ==> s@ == spec_result(st)),
        },
{
    let ghost lv = views(lines@);
    let mut stacks: Vec<Vec<u8>> = Vec::new();
    let mut in_moves: bool = false;
    let mut i: usize = 0;
    proof {
        assert(views(stacks@) =~= Seq::<Seq<u8>>::empty());
    }
    while i < lines.len()
        invariant
            i <= lines@.len(),
            lv == views(lines@),
            spec_run(lv, 0, Seq::empty(), false, rev) == spec_run(
                lv,
                i as int,
                views(stacks@),
                in_moves,
                rev,
            ),
        decreases lines@.len() - i,
    {
        let line = &lines[i];
        if !in_moves {
            let t = trim(line);
            if t.len() == 0 {
                return Err(SolveError::Malformed);
            }
            if t[0] != 91 {
                in_moves = true;
            }
            update_stacks(line, &mut stacks);
        } else {
            match captures_move(line) {
                None => {
                    // A line that is no move command is skipped.
                },
                Some(g) => {
                    proof {
                        let (a, b, c) = choose|a: Seq<u8>, b: Seq<u8>, c: Seq<u8>|
                            is_move_line(line@, a, b, c);
                        lemma_move_line_unique(line@, a, b, c);
                        lemma_move_line_unique(line@, g.0@, g.1@, g.2@);
                        assert(a == g.0@ && b == g.1@ && c == g.2@);
                        lemma_digits_val_nonneg(g.0@);
                    }
                    let cnt = match parse_u32(&g.0) {
                        None => {
                            return Err(SolveError::Malformed);
                        },
                        Some(v) => v,
                    };
                    let fd = g.1[0];
                    let td = g.2[0];
                    if fd == 48 || td == 48 {
                        return Err(SolveError::Malformed);
                    }
                    match apply_move(&mut stacks, cnt, (fd - 49) as usize, (td - 49) as usize, rev)
                    {
                        Ok(()) => {
                        },
                        Err(_) => {
                            return Err(SolveError::Malformed);
                        },
                    }
                },
            }
        }
        i = i + 1;
    }
    Ok(get_result(&stacks))
}

/// Replays the drawing and the move list, moving crates one at a
/// time, and reads off the stack tops.
pub fn solve(input: &str) -> (r: Result<String, SolveError>)
    ensures
        match r {
            Ok(s) => spec_solve(input.spec_bytes()) == Ok::<Seq<char>, SolveError>(s@),
            Err(e) => spec_solve(input.spec_bytes()) == Err::<Seq<char>, SolveError>(e),
        },
{
    let bytes = input.as_bytes_vec();
    let lines = split_lines(&bytes);
    proof {
        assert(views(lines@) =~= spec_lines(bytes@));
    }
    run_moves(&lines, true)
}

/// Replays the drawing and the move list, moving each block in one
/// grab, and reads off the stack tops.
pub fn solve2(input: &str) -> (r: Result<String, SolveError>)
    ensures
        match r {
            Ok(s) => spec_solve2(input.spec_bytes()) == Ok::<Seq<char>, SolveError>(s@),
            Err(e) => spec_solve2(input.spec_bytes()) == Err::<Seq<char>, SolveError>(e),
        },
{
    let bytes = input.as_bytes_vec();
    let lines = split_lines(&bytes);
    proof {
        assert(views(lines@) =~= spec_lines(bytes@));
    }
    run_moves(&lines, false)
}

} // verus!
