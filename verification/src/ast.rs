//! The abstract syntax tree of a dice-algebra expression and its evaluation.
//!
//! Evaluation walks the tree in post-order, left before right, drawing from
//! the injected randomness in that fixed order. Its contract pins the result
//! and the roll trace down as a function of the tree and the values drawn:
//! [`spec_eval`] computes both from the draw sequence alone.

use vstd::prelude::*;

use crate::dice_error::DiceError;
use crate::rng::RandomSource;
use crate::text::dec_str;
use crate::text::append_u64;

verus! {

/// A bare integer literal.
#[derive(Debug, PartialEq)]
pub struct IntegerAST {
    pub integer: u64,
}

/// A single implicit die: `dN` rolls one die with `N` faces.
#[derive(Debug, PartialEq)]
pub struct ShortRollAST {
    pub faces: u64,
}

/// A multi-die roll: `NdM` rolls `N` dice with `M` faces each, optionally
/// keeping only the highest or lowest `K` rolls.
#[derive(Debug, PartialEq)]
pub struct LongRollAST {
    pub die: u64,
    pub faces: u64,
    pub keep_high: Option<u64>,
    pub keep_low: Option<u64>,
}

/// A binary arithmetic operator.
#[derive(Debug, PartialEq, Eq, Structural, Clone, Copy)]
pub enum MathOperation {
    Add,
    Subtract,
    Multiply,
    Divide,
}

/// A binary operation over two exclusively owned subtrees.
#[derive(Debug, PartialEq)]
pub struct MathAST {
    pub operation: MathOperation,
    pub left: Box<AST>,
    pub right: Box<AST>,
}

/// A node of the expression tree.
#[derive(Debug, PartialEq)]
pub enum AST {
    Integer(IntegerAST),
    ShortRoll(ShortRollAST),
    LongRoll(LongRollAST),
    Math(MathAST),
}

/// What one evaluation of a subtree produces: the numeric result and the
/// human-readable trace of every roll made, in roll order.
#[derive(Debug, PartialEq)]
pub struct ASTExecutionResult {
    pub result: i128,
    pub description: String,
}

/// The message of the one evaluation error: division by zero, anywhere in the
/// tree.
pub open spec fn div_zero_message() -> Seq<char> {
    "Division by zero is not allowed."@
}

/// What one die shows for a drawn value: a die with no faces shows `0` and a
/// one-faced die shows `1`, neither consuming a draw; any other die shows the
/// draw itself, which evaluation requests from `[1, faces)` — the face count
/// itself is never shown.
pub open spec fn roll_value(faces: u64, draw: u64) -> u64 {
    if faces == 0 {
        0
    } else if faces == 1 {
        1
    } else {
        draw
    }
}

/// How many draws one die with this face count consumes.
pub open spec fn draws_per_die(faces: u64) -> nat {
    if faces <= 1 {
        0
    } else {
        1
    }
}

/// Ascending order on roll values.
pub open spec fn roll_leq() -> spec_fn(u64, u64) -> bool {
    |a: u64, b: u64| a <= b
}

/// The rolls sorted ascending.
pub open spec fn sorted_ascending(rolls: Seq<u64>) -> Seq<u64> {
    rolls.sort_by(roll_leq())
}

/// The sum of the rolls, folded left with 128-bit wrapping addition.
pub open spec fn wrap_sum(s: Seq<u64>) -> i128
    decreases s.len(),
{
    if s.len() == 0 {
        0
    } else {
        wrap_sum(s.drop_last()).wrapping_add(s.last() as i128)
    }
}

/// The sum a long roll reports once its keep-modifiers are applied, in their
/// priority order: a keep-low of `k < count` keeps the `k` smallest rolls and
/// overrides any keep-high; otherwise a keep-high of `k < count` keeps the
/// `k` largest; a `k` at or above the roll count filters nothing.
pub open spec fn keep_sum(rolls: Seq<u64>, die: u64, keep_high: Option<u64>, keep_low: Option<
    u64,
>) -> i128 {
    match keep_low {
        Some(kl) => if kl < die {
            wrap_sum(sorted_ascending(rolls).take(kl as int))
        } else {
            wrap_sum(rolls)
        },
        None => match keep_high {
            Some(kh) => if kh < die {
                wrap_sum(sorted_ascending(rolls).skip(rolls.len() - kh as int))
            } else {
                wrap_sum(rolls)
            },
            None => wrap_sum(rolls),
        },
    }
}

/// One line of the roll trace.
pub open spec fn you_rolled_line(roll: u64) -> Seq<char> {
    "You rolled: "@ + dec_str(roll as nat) + "\n"@
}

/// One trace line per roll, in roll order.
pub open spec fn roll_lines(rolls: Seq<u64>) -> Seq<char>
    decreases rolls.len(),
{
    if rolls.len() == 0 {
        Seq::empty()
    } else {
        roll_lines(rolls.drop_last()) + you_rolled_line(rolls.last())
    }
}

/// The trace of a short roll: a `dN` header and the single roll's line.
pub open spec fn short_roll_trace(faces: u64, roll: u64) -> Seq<char> {
    "\nRolling d"@ + dec_str(faces as nat) + "...\n"@ + you_rolled_line(roll)
}

/// The trace of a long roll: an `NdM` header and one line per roll, in roll
/// order — the keep-filter never reorders the trace.
pub open spec fn long_roll_trace(die: u64, faces: u64, rolls: Seq<u64>) -> Seq<char> {
    "\nRolling "@ + dec_str(die as nat) + "d"@ + dec_str(faces as nat) + "...\n"@ + roll_lines(
        rolls,
    )
}

/// The truncating 128-bit division, wrapping on the one overflowing pair
/// (the smallest value divided by minus one).
pub open spec fn div_wrapped(l: i128, r: i128) -> i128
    recommends
        r != 0,
{
    match l.checked_div(r) {
        Some(q) => q,
        None => i128::MIN,
    }
}

/// What evaluating a subtree against a sequence of drawn values produces.
pub struct SpecEval {
    /// The numeric result and trace, or the evaluation error's message.
    pub outcome: Result<(i128, Seq<char>), Seq<char>>,
    /// How many of the draws the walk consumed.
    pub used: nat,
    /// Whether the draw sequence is long enough for the walk and each
    /// consumed draw lies in the range requested for it.
    pub ok: bool,
}

/// Evaluation as a function of the tree and the values drawn, consuming
/// `draws` from the front: the left subtree of a binary node takes its draws
/// before the right one, and a long roll consumes one draw per die in roll
/// order. Division by zero anywhere ends the walk with the error.
pub open spec fn spec_eval(ast: AST, draws: Seq<u64>) -> SpecEval
    decreases ast,
{
    match ast {
        AST::Integer(a) => SpecEval {
            outcome: Ok((a.integer as i128, Seq::empty())),
            used: 0,
            ok: true,
        },
        AST::ShortRoll(a) => {
            let roll = if a.faces <= 1 {
                roll_value(a.faces, 0)
            } else {
                roll_value(a.faces, draws[0])
            };
            SpecEval {
                outcome: Ok((roll as i128, short_roll_trace(a.faces, roll))),
                used: draws_per_die(a.faces),
                ok: a.faces <= 1 || (draws.len() >= 1 && 1 <= draws[0] < a.faces),
            }
        },
        AST::LongRoll(a) => {
            let rolls = if a.faces <= 1 {
                Seq::new(a.die as nat, |i: int| roll_value(a.faces, 0))
            } else {
                Seq::new(a.die as nat, |i: int| draws[i])
            };
            SpecEval {
                outcome: Ok(
                    (
                        keep_sum(rolls, a.die, a.keep_high, a.keep_low),
                        long_roll_trace(a.die, a.faces, rolls),
                    ),
                ),
                used: a.die as nat * draws_per_die(a.faces),
                ok: a.faces <= 1 || (draws.len() >= a.die && forall|i: int|
                    0 <= i < a.die ==> 1 <= #[trigger] draws[i] < a.faces),
            }
        },
        AST::Math(m) => {
            let l = spec_eval(*m.left, draws);
            match l.outcome {
                Err(msg) => SpecEval { outcome: Err(msg), used: l.used, ok: l.ok },
                Ok((lv, lt)) => {
                    let r = spec_eval(*m.right, draws.skip(l.used as int));
                    let used = l.used + r.used;
                    let ok = l.ok && r.ok;
                    match r.outcome {
                        Err(msg) => SpecEval { outcome: Err(msg), used, ok },
                        Ok((rv, rt)) => {
                            let outcome = match m.operation {
                                MathOperation::Add => Ok((lv.wrapping_add(rv), lt + rt)),
                                MathOperation::Subtract => Ok((lv.wrapping_sub(rv), lt + rt)),
                                MathOperation::Multiply => Ok((lv.wrapping_mul(rv), lt + rt)),
                                MathOperation::Divide => if rv == 0 {
                                    Err(div_zero_message())
                                } else {
                                    Ok((div_wrapped(lv, rv), lt + rt))
                                },
                            };
                            SpecEval { outcome, used, ok }
                        },
                    }
                },
            }
        },
    }
}

/// The values a source handed out during one call: what its history gained.
pub open spec fn draws_delta<R: RandomSource>(pre: R, post: R) -> Seq<u64> {
    post.history().skip(pre.history().len() as int)
}

/// The contract every `execute_ast` meets: the old history is a prefix of the
/// new one, the walk consumed exactly the values drawn during the call, each
/// drawn value lies in the range requested for it, and the returned result,
/// trace and error are exactly what [`spec_eval`] computes from the tree and
/// those values.
pub open spec fn execute_ensures<R: RandomSource>(
    ast: AST,
    pre: R,
    post: R,
    r: Result<ASTExecutionResult, DiceError>,
) -> bool {
    &&& pre.history().is_prefix_of(post.history())
    &&& ({
        let se = spec_eval(ast, draws_delta(pre, post));
        &&& se.used == draws_delta(pre, post).len()
        &&& se.ok
        &&& match (r, se.outcome) {
            (Ok(res), Ok((v, t))) => res.result == v && res.description@ == t,
            (Err(e), Err(msg)) => e.message@ == msg,
            _ => false,
        }
    })
}

/// What the walk reads of a draw sequence is only its consumed prefix:
/// values appended after it change neither the outcome nor the consumption.
pub proof fn lemma_spec_eval_append(ast: AST, d1: Seq<u64>, d2: Seq<u64>)
    requires
        spec_eval(ast, d1).used <= d1.len(),
    ensures
        spec_eval(ast, d1 + d2).outcome == spec_eval(ast, d1).outcome,
        spec_eval(ast, d1 + d2).used == spec_eval(ast, d1).used,
        spec_eval(ast, d1 + d2).ok == spec_eval(ast, d1).ok,
    decreases ast,
{
    let d = d1 + d2;
    match ast {
        AST::Integer(a) => {},
        AST::ShortRoll(a) => {
            if a.faces >= 2 {
                assert(d[0] == d1[0]);
            }
        },
        AST::LongRoll(a) => {
            if a.faces >= 2 {
                assert forall|i: int| 0 <= i < a.die implies d[i] == d1[i] by {}
                assert(Seq::new(a.die as nat, |i: int| d[i]) =~= Seq::new(
                    a.die as nat,
                    |i: int| d1[i],
                ));
            } else {
                assert(Seq::new(a.die as nat, |i: int| roll_value(a.faces, 0)) =~= Seq::new(
                    a.die as nat,
                    |i: int| roll_value(a.faces, 0),
                ));
            }
        },
        AST::Math(m) => {
            let l1 = spec_eval(*m.left, d1);
            lemma_spec_eval_append(*m.left, d1, d2);
            match l1.outcome {
                Err(_) => {},
                Ok(_) => {
                    assert(d.skip(l1.used as int) =~= d1.skip(l1.used as int) + d2);
                    lemma_spec_eval_append(*m.right, d1.skip(l1.used as int), d2);
                },
            }
        },
    }
}

/// Inserting into a sequence adds exactly that element to its multiset.
proof fn lemma_insert_multiset(s: Seq<u64>, i: int, a: u64)
    requires
        0 <= i <= s.len(),
    ensures
        s.insert(i, a).to_multiset() == s.to_multiset().insert(a),
{
    broadcast use vstd::seq_lib::group_to_multiset_ensures;
    broadcast use vstd::multiset::group_multiset_axioms;

    let sub1 = s.subrange(0, i);
    let sub2 = s.subrange(i, s.len() as int);
    vstd::seq_lib::lemma_multiset_commutative(sub1.push(a), sub2);
    vstd::seq_lib::lemma_multiset_commutative(sub1, sub2);
    assert(s =~= sub1 + sub2);
    assert(sub1.push(a).to_multiset() =~= sub1.to_multiset().insert(a));
    assert(s.insert(i, a).to_multiset() =~= s.to_multiset().insert(a));
}

/// Sorts the rolls ascending.
fn sort_rolls(v: &mut Vec<u64>)
    ensures
        final(v)@ == sorted_ascending(old(v)@),
        final(v)@.len() == old(v)@.len(),
{
    broadcast use vstd::seq_lib::group_to_multiset_ensures;

    let mut out: Vec<u64> = Vec::new();
    let mut i: usize = 0;
    proof {
        assert(old(v)@.take(0) =~= Seq::<u64>::empty());
        assert(Seq::<u64>::empty().to_multiset() =~= vstd::multiset::Multiset::<u64>::empty());
    }
    while i < v.len()
        invariant
            v@ == old(v)@,
            i <= v@.len(),
            vstd::relations::sorted_by(out@, roll_leq()),
            out@.to_multiset() == v@.take(i as int).to_multiset(),
            out@.len() == i,
        decreases v@.len() - i,
    {
        let x = v[i];
        let mut idx: usize = 0;
        while idx < out.len() && out[idx] <= x
            invariant
                idx <= out@.len(),
                forall|k: int| 0 <= k < idx ==> out@[k] <= x,
            decreases out@.len() - idx,
        {
            idx += 1;
        }
        let ghost out0 = out@;
        proof {
            assert(forall|k: int| 0 <= k < idx ==> out0[k] <= x);
            assert(idx == out0.len() || out0[idx as int] > x);
            out0.insert_ensures(idx as int, x);
            lemma_insert_multiset(out0, idx as int, x);
            assert(v@.take(i as int + 1) =~= v@.take(i as int).push(x));
            v@.take(i as int).to_multiset_ensures();
            assert(v@.take(i as int).push(x).to_multiset() =~= v@.take(
                i as int,
            ).to_multiset().insert(x));
            assert(v@.take(i as int + 1).to_multiset() == v@.take(
                i as int,
            ).to_multiset().insert(x));
        }
        out.insert(idx, x);
        proof {
            assert(out@.to_multiset() == out0.to_multiset().insert(x));
            let idx_i = idx as int;
            let n0 = out0.len() as int;
            assert forall|a: int, b: int|
                0 <= a < b < out@.len() implies #[trigger] roll_leq()(out@[a], out@[b]) by {
                if b < idx_i {
                    assert(out@[a] == out0[a] && out@[b] == out0[b]);
                    assert(roll_leq()(out0[a], out0[b]));
                } else if b == idx_i {
                    assert(out@[b] == x);
                    assert(out@[a] == out0[a]);
                    assert(out0[a] <= x);
                } else {
                    assert(out@[b] == out0[b - 1]);
                    assert(idx_i <= b - 1 < n0);
                    if a < idx_i {
                        assert(out@[a] == out0[a]);
                        assert(a < b - 1);
                        if a < idx_i && idx_i <= b - 1 && a < b - 1 {
                            if out0[a] > x {
                                assert(false);
                            }
                        }
                        if a == b - 1 {
                        } else {
                            assert(roll_leq()(out0[a], out0[b - 1]));
                        }
                    } else if a == idx_i {
                        assert(out@[a] == x);
                        assert(idx_i < n0);
                        assert(out0[idx_i] > x);
                        if idx_i < b - 1 {
                            assert(roll_leq()(out0[idx_i], out0[b - 1]));
                        }
                    } else {
                        assert(out@[a] == out0[a - 1]);
                        if a - 1 < b - 1 {
                            assert(roll_leq()(out0[a - 1], out0[b - 1]));
                        }
                    }
                }
            }
        }
        i += 1;
    }
    proof {
        assert(v@.take(v@.len() as int) =~= v@);
        v@.lemma_sort_by_ensures(roll_leq());
        assert(vstd::relations::total_ordering(roll_leq())) by {
            assert forall|x: u64, y: u64| #[trigger] roll_leq()(x, y) || #[trigger] roll_leq()(
                y,
                x,
            ) by {}
        }
        vstd::seq_lib::lemma_sorted_unique(out@, sorted_ascending(v@), roll_leq());
        assert(out@ == sorted_ascending(v@));
    }
    *v = out;
}

impl AST {
    /// Evaluates the tree in post-order, left before right, drawing from the
    /// injected randomness in that fixed order; see [`execute_ensures`].
    pub fn execute_ast<R: RandomSource>(&self, rng: &mut R) -> (r: Result<
        ASTExecutionResult,
        DiceError,
    >)
        ensures
            execute_ensures(*self, *old(rng), *final(rng), r),
        decreases *self,
    {
        match self {
            AST::Integer(ast) => ast.execute_ast(rng),
            AST::ShortRoll(ast) => ast.execute_ast(rng),
            AST::LongRoll(ast) => ast.execute_ast(rng),
            AST::Math(ast) => ast.execute_ast(rng),
        }
    }
}

impl IntegerAST {
    /// Evaluates to the literal's value with an empty trace; no randomness is
    /// consumed.
    pub fn execute_ast<R: RandomSource>(&self, rng: &mut R) -> (r: Result<
        ASTExecutionResult,
        DiceError,
    >)
        ensures
            execute_ensures(AST::Integer(IntegerAST { integer: self.integer }), *old(rng), *final(rng), r),
    {
        proof {
            assert(rng.history().skip(rng.history().len() as int) =~= Seq::<u64>::empty());
            assert(rng.history().is_prefix_of(rng.history()));
        }
        Ok(ASTExecutionResult { result: self.integer as i128, description: String::new() })
    }
}

impl ShortRollAST {
    /// Rolls one die: a die with no faces shows `0` and a one-faced die shows
    /// `1`, neither consuming a draw; otherwise one value is drawn from
    /// `[1, faces)`. The trace names the die and the roll.
    pub fn execute_ast<R: RandomSource>(&self, rng: &mut R) -> (r: Result<
        ASTExecutionResult,
        DiceError,
    >)
        ensures
            execute_ensures(AST::ShortRoll(ShortRollAST { faces: self.faces }), *old(rng), *final(rng), r),
    {
        let ghost hist0 = rng.history();
        let roll: u64 = if self.faces == 0 {
            0
        } else if self.faces == 1 {
            1
        } else {
            rng.draw(1, self.faces)
        };
        let mut description = String::new();
        description.append("\nRolling d");
        append_u64(&mut description, self.faces);
        description.append("...\n");
        description.append("You rolled: ");
        append_u64(&mut description, roll);
        description.append("\n");
        proof {
            assert(description@ =~= short_roll_trace(self.faces, roll));
            if self.faces <= 1 {
                assert(rng.history().skip(hist0.len() as int) =~= Seq::<u64>::empty());
                assert(hist0.is_prefix_of(rng.history()));
            } else {
                assert(rng.history() == hist0.push(roll));
                assert(rng.history().skip(hist0.len() as int) =~= seq![roll]);
                assert(hist0 =~= rng.history().subrange(0, hist0.len() as int));
                assert(hist0.is_prefix_of(rng.history()));
            }
        }
        Ok(ASTExecutionResult { result: roll as i128, description })
    }
}

impl LongRollAST {
    /// Rolls `die` dice with `faces` faces each, in roll order, using the
    /// same per-die rule as a short roll. The trace holds one line per roll
    /// in roll order; the keep-filter only changes the reported sum, in its
    /// priority order: keep-low first, then keep-high, and a bound at or
    /// above the die count keeps everything.
    pub fn execute_ast<R: RandomSource>(&self, rng: &mut R) -> (r: Result<
        ASTExecutionResult,
        DiceError,
    >)
        ensures
            execute_ensures(
                AST::LongRoll(
                    LongRollAST {
                        die: self.die,
                        faces: self.faces,
                        keep_high: self.keep_high,
                        keep_low: self.keep_low,
                    },
                ),
                *old(rng),
                *final(rng),
                r,
            ),
    {
        let ghost hist0 = rng.history();
        let mut description = String::new();
        description.append("\nRolling ");
        append_u64(&mut description, self.die);
        description.append("d");
        append_u64(&mut description, self.faces);
        description.append("...\n");
        let ghost header = description@;
        let mut rolls: Vec<u64> = Vec::new();
        let mut sum: i128 = 0;
        let mut i: u64 = 0;
        proof {
            assert(roll_lines(rolls@) =~= Seq::<char>::empty());
            assert(description@ =~= header + roll_lines(rolls@));
        }
        while i < self.die
            invariant
                i <= self.die,
                rolls@.len() == i as nat,
                self.faces <= 1 ==> rng.history() == hist0,
                self.faces <= 1 ==> forall|j: int|
                    0 <= j < i ==> #[trigger] rolls@[j] == roll_value(self.faces, 0),
                self.faces >= 2 ==> rng.history() == hist0 + rolls@,
                self.faces >= 2 ==> forall|j: int|
                    0 <= j < i ==> 1 <= #[trigger] rolls@[j] < self.faces,
                sum == wrap_sum(rolls@),
                description@ == header + roll_lines(rolls@),
            decreases self.die - i,
        {
            let roll: u64 = if self.faces == 0 {
                0
            } else if self.faces == 1 {
                1
            } else {
                rng.draw(1, self.faces)
            };
            let ghost rolls0 = rolls@;
            rolls.push(roll);
            description.append("You rolled: ");
            append_u64(&mut description, roll);
            description.append("\n");
            sum = sum.wrapping_add(roll as i128);
            proof {
                assert(rolls@.drop_last() =~= rolls0);
                assert(rolls@.last() == roll);
                assert(description@ =~= header + roll_lines(rolls@));
                if self.faces >= 2 {
                    assert(rng.history() =~= hist0 + rolls@);
                }
            }
            i += 1;
        }
        let ghost raw_rolls = rolls@;
        let total: usize = rolls.len();
        match self.keep_low {
            Some(keep_low) => {
                if keep_low < self.die {
                    sort_rolls(&mut rolls);
                    sum = 0;
                    let k: usize = keep_low as usize;
                    let mut j: usize = 0;
                    proof {
                        assert(rolls@.take(0) =~= Seq::<u64>::empty());
                    }
                    while j < k
                        invariant
                            j <= k,
                            k as nat <= rolls@.len(),
                            rolls@ == sorted_ascending(raw_rolls),
                            sum == wrap_sum(rolls@.take(j as int)),
                        decreases k - j,
                    {
                        let x = rolls[j];
                        proof {
                            assert(rolls@.take(j as int + 1).drop_last() =~= rolls@.take(j as int));
                            assert(rolls@.take(j as int + 1).last() == x);
                        }
                        sum = sum.wrapping_add(x as i128);
                        j += 1;
                    }
                    proof {
                        assert(sum == wrap_sum(sorted_ascending(raw_rolls).take(keep_low as int)));
                    }
                }
            },
            None => {
                match self.keep_high {
                    Some(keep_high) => {
                        if keep_high < self.die {
                            sort_rolls(&mut rolls);
                            sum = 0;
                            let k: usize = keep_high as usize;
                            let start: usize = total - k;
                            let mut j: usize = start;
                            proof {
                                assert(rolls@.subrange(start as int, start as int) =~= Seq::<
                                    u64,
                                >::empty());
                            }
                            while j < total
                                invariant
                                    start <= j <= total,
                                    total == rolls@.len(),
                                    start == total - k,
                                    rolls@ == sorted_ascending(raw_rolls),
                                    sum == wrap_sum(rolls@.subrange(start as int, j as int)),
                                decreases total - j,
                            {
                                let x = rolls[j];
                                proof {
                                    assert(rolls@.subrange(start as int, j as int + 1).drop_last()
                                        =~= rolls@.subrange(start as int, j as int));
                                    assert(rolls@.subrange(start as int, j as int + 1).last() == x);
                                }
                                sum = sum.wrapping_add(x as i128);
                                j += 1;
                            }
                            proof {
                                assert(rolls@.subrange(start as int, total as int)
                                    =~= sorted_ascending(raw_rolls).skip(
                                    raw_rolls.len() - keep_high as int,
                                ));
                            }
                        }
                    },
                    None => {},
                }
            },
        }
        proof {
            let post = rng.history();
            let delta = post.skip(hist0.len() as int);
            if self.faces <= 1 {
                assert(delta =~= Seq::<u64>::empty());
                assert(hist0.is_prefix_of(post));
                assert(Seq::new(self.die as nat, |x: int| roll_value(self.faces, 0))
                    =~= raw_rolls);
            } else {
                assert(delta =~= raw_rolls);
                assert(hist0 =~= post.subrange(0, hist0.len() as int));
                assert(hist0.is_prefix_of(post));
                assert(Seq::new(self.die as nat, |x: int| delta[x]) =~= raw_rolls);
            }
            assert(description@ =~= long_roll_trace(self.die, self.faces, raw_rolls));
        }
        Ok(ASTExecutionResult { result: sum, description })
    }
}

impl MathAST {
    /// Evaluates the left subtree fully, then the right one — the order in
    /// which randomness is consumed — and combines the results; the combined
    /// trace is the left trace immediately followed by the right one.
    /// Dividing by zero fails with the evaluation error.
    pub fn execute_ast<R: RandomSource>(&self, rng: &mut R) -> (r: Result<
        ASTExecutionResult,
        DiceError,
    >)
        ensures
            execute_ensures(
                AST::Math(
                    MathAST {
                        operation: self.operation,
                        left: self.left,
                        right: self.right,
                    },
                ),
                *old(rng),
                *final(rng),
                r,
            ),
        decreases *self,
    {
        let ghost hist0 = rng.history();
        let left = match self.left.execute_ast(rng) {
            Ok(l) => l,
            Err(e) => {
                return Err(e);
            },
        };
        let ghost hist1 = rng.history();
        let ghost delta1 = hist1.skip(hist0.len() as int);
        let right = match self.right.execute_ast(rng) {
            Ok(x) => x,
            Err(e) => {
                proof {
                    lemma_math_compose(*self, hist0, hist1, rng.history());
                }
                return Err(e);
            },
        };
        proof {
            lemma_math_compose(*self, hist0, hist1, rng.history());
        }
        let result: i128 = match self.operation {
            MathOperation::Add => left.result.wrapping_add(right.result),
            MathOperation::Subtract => left.result.wrapping_sub(right.result),
            MathOperation::Multiply => left.result.wrapping_mul(right.result),
            MathOperation::Divide => {
                if right.result == 0 {
                    return Err(DiceError::new("Division by zero is not allowed."));
                }
                match left.result.checked_div(right.result) {
                    Some(q) => q,
                    None => i128::MIN,
                }
            },
        };
        let mut description = left.description;
        description.append(right.description.as_str());
        Ok(ASTExecutionResult { result, description })
    }
}

/// An integer literal evaluates to its value with an empty trace, for every
/// value and every draw sequence; it consumes no randomness.
pub proof fn lemma_integer_literal_eval(v: u64, draws: Seq<u64>)
    ensures
        spec_eval(AST::Integer(IntegerAST { integer: v }), draws) == (SpecEval {
            outcome: Ok::<(i128, Seq<char>), Seq<char>>((v as i128, Seq::empty())),
            used: 0nat,
            ok: true,
        }),
{
}

/// A roll of a die with no faces is always `0` and a roll of a one-faced die
/// is always `1`, with no draw consumed; for two or more faces the rolled
/// value always lies in `[1, faces)` — the face count itself is never rolled.
pub proof fn lemma_short_roll_bounds(faces: u64, draws: Seq<u64>)
    requires
        spec_eval(AST::ShortRoll(ShortRollAST { faces }), draws).ok,
    ensures
        spec_eval(AST::ShortRoll(ShortRollAST { faces }), draws).outcome is Ok,
        faces == 0 ==> spec_eval(AST::ShortRoll(ShortRollAST { faces }), draws).outcome->Ok_0.0
            == 0,
        faces == 1 ==> spec_eval(AST::ShortRoll(ShortRollAST { faces }), draws).outcome->Ok_0.0
            == 1,
        faces >= 2 ==> 1 <= spec_eval(AST::ShortRoll(ShortRollAST { faces }), draws).outcome->Ok_0.0
            < faces,
{
}

/// The rolls of a long roll, one per die: for a die with no faces or one
/// face every roll is that die's fixed value; otherwise each roll is the
/// drawn value, in draw order.
pub open spec fn long_roll_rolls(a: LongRollAST, draws: Seq<u64>) -> Seq<u64> {
    if a.faces <= 1 {
        Seq::new(a.die as nat, |i: int| roll_value(a.faces, 0))
    } else {
        Seq::new(a.die as nat, |i: int| draws[i])
    }
}

/// What a long roll reports: with no effective keep-modifier, the sum of
/// exactly `die` rolls; a keep-low of `k < die` keeps the `k` smallest rolls
/// and wins over any keep-high beside it; otherwise a keep-high of `k < die`
/// keeps the `k` largest; a bound at or above the die count filters nothing.
pub proof fn lemma_long_roll_keep(a: LongRollAST, draws: Seq<u64>)
    ensures
        spec_eval(AST::LongRoll(a), draws).outcome is Ok,
        long_roll_rolls(a, draws).len() == a.die,
        ({
            let v = spec_eval(AST::LongRoll(a), draws).outcome->Ok_0.0;
            let rolls = long_roll_rolls(a, draws);
            &&& (a.keep_low matches Some(k) && k < a.die) ==> v == wrap_sum(
                sorted_ascending(rolls).take(a.keep_low->0 as int),
            )
            &&& (a.keep_low matches Some(k) && k >= a.die) ==> v == wrap_sum(rolls)
            &&& (a.keep_low is None && (a.keep_high matches Some(k) && k < a.die)) ==> v
                == wrap_sum(sorted_ascending(rolls).skip(rolls.len() - a.keep_high->0 as int))
            &&& (a.keep_low is None && (a.keep_high matches Some(k) && k >= a.die)) ==> v
                == wrap_sum(rolls)
            &&& (a.keep_low is None && a.keep_high is None) ==> v == wrap_sum(rolls)
        }),
{
}

/// The only evaluation error is division by zero: whenever the walk fails,
/// it fails with exactly that message, wherever in the tree the division
/// sat.
pub proof fn lemma_eval_error_is_division_by_zero(ast: AST, draws: Seq<u64>)
    requires
        spec_eval(ast, draws).outcome is Err,
    ensures
        spec_eval(ast, draws).outcome == Err::<(i128, Seq<char>), Seq<char>>(div_zero_message()),
    decreases ast,
{
    match ast {
        AST::Math(m) => {
            let l = spec_eval(*m.left, draws);
            match l.outcome {
                Err(_) => {
                    lemma_eval_error_is_division_by_zero(*m.left, draws);
                },
                Ok(_) => {
                    let r = spec_eval(*m.right, draws.skip(l.used as int));
                    match r.outcome {
                        Err(_) => {
                            lemma_eval_error_is_division_by_zero(
                                *m.right,
                                draws.skip(l.used as int),
                            );
                        },
                        Ok(_) => {},
                    }
                },
            }
        },
        _ => {},
    }
}

/// A division whose right operand evaluates to zero fails with the
/// evaluation error, and an error in either subtree fails the node above it:
/// together, a zero divisor anywhere in the tree fails the whole
/// evaluation, and no result is produced.
pub proof fn lemma_division_by_zero_fails(m: MathAST, draws: Seq<u64>)
    ensures
        ({
            let l = spec_eval(*m.left, draws);
            let r = spec_eval(*m.right, draws.skip(l.used as int));
            &&& (m.operation == MathOperation::Divide && l.outcome is Ok && r.outcome is Ok
                && r.outcome->Ok_0.0 == 0) ==> spec_eval(AST::Math(m), draws).outcome == Err::<
                (i128, Seq<char>),
                Seq<char>,
            >(div_zero_message())
            &&& l.outcome is Err ==> spec_eval(AST::Math(m), draws).outcome is Err
            &&& (l.outcome is Ok && r.outcome is Err) ==> spec_eval(
                AST::Math(m),
                draws,
            ).outcome is Err
        }),
{
}

/// Round-trip determinism: evaluation is a function of the tree and the
/// drawn values alone, so two walks of the same tree over the same draw
/// sequence produce the identical outcome — the same result, the same trace,
/// the same consumption. With every `execute_ast` pinned to [`spec_eval`]
/// over the values its source actually handed out, two runs whose sources
/// yield the same values return byte-for-byte the same result and trace.
pub proof fn lemma_evaluation_deterministic(ast: AST, draws1: Seq<u64>, draws2: Seq<u64>)
    requires
        draws1 == draws2,
    ensures
        spec_eval(ast, draws1) == spec_eval(ast, draws2),
{
}

/// Composes the draw accounting of a binary node's two subtree walks: with
/// the left subtree evaluated over the first stretch of new history and the
/// right one over the second, the whole node's walk over the combined
/// stretch consumes all of it and combines the two outcomes.
proof fn lemma_math_compose(m: MathAST, hist0: Seq<u64>, hist1: Seq<u64>, post: Seq<u64>)
    requires
        hist0.is_prefix_of(hist1),
        hist1.is_prefix_of(post),
        spec_eval(*m.left, hist1.skip(hist0.len() as int)).used == hist1.len() - hist0.len(),
        spec_eval(*m.left, hist1.skip(hist0.len() as int)).outcome is Ok,
        spec_eval(*m.right, post.skip(hist1.len() as int)).used == post.len() - hist1.len(),
    ensures
        hist0.is_prefix_of(post),
        ({
            let delta = post.skip(hist0.len() as int);
            let delta1 = hist1.skip(hist0.len() as int);
            let delta2 = post.skip(hist1.len() as int);
            let l = spec_eval(*m.left, delta);
            &&& l.outcome == spec_eval(*m.left, delta1).outcome
            &&& l.used == spec_eval(*m.left, delta1).used
            &&& l.ok == spec_eval(*m.left, delta1).ok
            &&& delta.skip(l.used as int) == delta2
            &&& delta.len() == l.used + delta2.len()
        }),
{
    let delta = post.skip(hist0.len() as int);
    let delta1 = hist1.skip(hist0.len() as int);
    let delta2 = post.skip(hist1.len() as int);
    assert(hist0 =~= post.subrange(0, hist0.len() as int));
    assert(delta =~= delta1 + delta2);
    lemma_spec_eval_append(*m.left, delta1, delta2);
    assert(delta.skip(delta1.len() as int) =~= delta2);
}

} // verus!
