//! The pattern grammar, stated on its own, and the proof that the compiler
//! accepts it: every expression derived from the grammar compiles without
//! error. Together with the closed error type of the parser module this is
//! the round-trip guarantee: valid expressions never fail, and a failure is
//! always one of the named error kinds.

use vstd::prelude::*;

use crate::parser::{
    all_digits, buf_ok, digits_val, is_digit, lemma_digits_val_nonneg, lemma_digits_val_prefix,
    CompileError, GroupMode, GroupModel, ParserModel, StepModel, close_group_model, init_model,
    open_group_model, push_item_model, resolve_model, run_model, spec_compile, step_char_model,
    with_step,
};

verus! {

/// One token of the grammar: a class key, the blank shorthand, a literal
/// run, or a bracketed sub-pattern of either flavour.
pub enum TokenShape {
    Consonant,
    Vowel,
    Digit,
    Blank,
    Literal(Seq<char>),
    Group(GroupMode, Box<PatternShape>),
}

/// An optional repetition-range suffix: none, an exact count, or an
/// inclusive range.
pub enum RangeShape {
    Absent,
    One(Seq<char>),
    Two(Seq<char>, Seq<char>),
}

/// One item: a token, an optional range suffix, then any number of subset
/// markers.
pub struct ItemShape {
    pub token: TokenShape,
    pub range: RangeShape,
    pub subsets: nat,
}

/// A whole pattern: one item, then further items each preceded by the
/// separator.
pub struct PatternShape {
    pub first: ItemShape,
    pub rest: Seq<ItemShape>,
}

/// The text of a token.
pub open spec fn token_text(t: TokenShape) -> Seq<char>
    decreases t, 0int,
{
    match t {
        TokenShape::Consonant => seq!['c'],
        TokenShape::Vowel => seq!['v'],
        TokenShape::Digit => seq!['d'],
        TokenShape::Blank => seq!['s'],
        TokenShape::Literal(x) => seq!['%'] + x,
        TokenShape::Group(GroupMode::Concat, p) => seq!['['] + pattern_text(*p) + seq![']'],
        TokenShape::Group(GroupMode::Alternate, p) => seq!['{'] + pattern_text(*p) + seq!['}'],
    }
}

/// The text of a range suffix.
pub open spec fn range_text(r: RangeShape) -> Seq<char> {
    match r {
        RangeShape::Absent => Seq::empty(),
        RangeShape::One(n) => seq![':'] + n,
        RangeShape::Two(a, b) => seq![':'] + a + seq![':'] + b,
    }
}

/// The text of a run of subset markers.
pub open spec fn subsets_text(k: nat) -> Seq<char>
    decreases k,
{
    if k == 0 {
        Seq::empty()
    } else {
        subsets_text((k - 1) as nat).push('#')
    }
}

/// The text of one item.
pub open spec fn item_text(i: ItemShape) -> Seq<char>
    decreases i, 1int,
{
    token_text(i.token) + range_text(i.range) + subsets_text(i.subsets)
}

/// The text of the separated items after the first.
pub open spec fn rest_text(rest: Seq<ItemShape>) -> Seq<char>
    decreases rest, 2int,
{
    if rest.len() == 0 {
        Seq::empty()
    } else {
        rest_text(rest.drop_last()) + seq!['-'] + item_text(rest.last())
    }
}

/// The text of a whole pattern.
pub open spec fn pattern_text(p: PatternShape) -> Seq<char>
    decreases p, 3int,
{
    item_text(p.first) + rest_text(p.rest)
}

/// A character a literal run may hold: anything but the characters that
/// close the run.
pub open spec fn literal_char(c: char) -> bool {
    c != ']' && c != '}' && c != '#' && c != '-'
}

/// A valid range bound: digits only, at least one, value representable.
pub open spec fn bound_valid(n: Seq<char>) -> bool {
    n.len() > 0 && all_digits(n) && digits_val(n) <= u32::MAX as int
}

/// A valid token: literal runs are non-empty and hold only literal
/// characters, sub-patterns are valid in turn.
pub open spec fn token_valid(t: TokenShape) -> bool
    decreases t, 0int,
{
    match t {
        TokenShape::Literal(x) => x.len() > 0 && (forall|i: int|
            0 <= i < x.len() ==> literal_char(#[trigger] x[i])),
        TokenShape::Group(_, p) => pattern_valid(*p),
        _ => true,
    }
}

/// A valid range suffix for a given token: a range may not follow a literal
/// run (the run would swallow the separator), its bounds are valid, and an
/// explicit minimum never exceeds an explicit maximum.
pub open spec fn range_valid(r: RangeShape, t: TokenShape) -> bool {
    match r {
        RangeShape::Absent => true,
        RangeShape::One(n) => !(t is Literal) && bound_valid(n),
        RangeShape::Two(a, b) => !(t is Literal) && bound_valid(a) && bound_valid(b) && digits_val(
            a,
        ) <= digits_val(b),
    }
}

/// A valid item.
pub open spec fn item_valid(i: ItemShape) -> bool
    decreases i, 1int,
{
    token_valid(i.token) && range_valid(i.range, i.token)
}

/// A valid pattern: every item valid.
pub open spec fn pattern_valid(p: PatternShape) -> bool
    decreases p, 2int,
{
    item_valid(p.first) && (forall|j: int| 0 <= j < p.rest.len() ==> item_valid(#[trigger] p.rest[j]))
}

/// A pattern expression is syntactically valid when some derivation of the
/// grammar spells it.
pub open spec fn valid_expression(s: Seq<char>) -> bool {
    exists|p: PatternShape| pattern_valid(p) && #[trigger] pattern_text(p) == s
}

/// A partial token that finalizes without error.
spec fn resolvable(s: StepModel) -> bool {
    resolve_model(s) is Ok
}

/// Running the machine over a concatenation runs the parts in order.
proof fn lemma_run_append(p0: ParserModel, s1: Seq<char>, s2: Seq<char>)
    ensures
        run_model(p0, s1 + s2) == match run_model(p0, s1) {
            Ok(q) => run_model(q, s2),
            Err(e) => Err::<ParserModel, CompileError>(e),
        },
    decreases s2.len(),
{
    if s2.len() == 0 {
        assert(s1 + s2 =~= s1);
    } else {
        assert((s1 + s2).drop_last() =~= s1 + s2.drop_last());
        assert((s1 + s2).last() == s2.last());
        lemma_run_append(p0, s1, s2.drop_last());
    }
}

/// A run over a single character is that character's transition.
proof fn lemma_run_one(p: ParserModel, c: char)
    ensures
        run_model(p, seq![c]) == step_char_model(p, c),
{
    assert(seq![c].drop_last() =~= Seq::<char>::empty());
    assert(seq![c].last() == c);
    assert(run_model(p, Seq::<char>::empty()) == Ok::<ParserModel, CompileError>(p));
}

/// An open literal run swallows every non-structural character.
proof fn lemma_raw_runs(p: ParserModel, s: Seq<char>)
    requires
        p.step is Raw,
        forall|i: int| 0 <= i < s.len() ==> literal_char(#[trigger] s[i]),
    ensures
        run_model(p, s) == Ok::<ParserModel, CompileError>(
            with_step(p, StepModel::Raw(p.step->Raw_0 + s)),
        ),
    decreases s.len(),
{
    if s.len() == 0 {
        assert(p.step->Raw_0 + s =~= p.step->Raw_0);
        assert(with_step(p, StepModel::Raw(p.step->Raw_0 + s)) =~= p);
    } else {
        assert(forall|i: int|
            0 <= i < s.drop_last().len() ==> literal_char(#[trigger] s.drop_last()[i]));
        lemma_raw_runs(p, s.drop_last());
        let q = with_step(p, StepModel::Raw(p.step->Raw_0 + s.drop_last()));
        let c = s.last();
        assert(literal_char(c));
        assert(step_char_model(q, c) == Ok::<ParserModel, CompileError>(
            with_step(q, StepModel::Raw((p.step->Raw_0 + s.drop_last()).push(c))),
        ));
        assert((p.step->Raw_0 + s.drop_last()).push(c) =~= p.step->Raw_0 + s);
    }
}

/// Open digits extend an open minimum-bound buffer while the value stays
/// representable.
proof fn lemma_digits_run_min(p: ParserModel, s: Seq<char>)
    requires
        p.step is RangeMin,
        all_digits(s),
        buf_ok(p.step->RangeMin_1),
        buf_ok(p.step->RangeMin_1 + s),
    ensures
        run_model(p, s) == Ok::<ParserModel, CompileError>(
            with_step(p, StepModel::RangeMin(p.step->RangeMin_0, p.step->RangeMin_1 + s)),
        ),
    decreases s.len(),
{
    let buf0 = p.step->RangeMin_1;
    if s.len() == 0 {
        assert(buf0 + s =~= buf0);
        assert(with_step(p, StepModel::RangeMin(p.step->RangeMin_0, buf0 + s)) =~= p);
    } else {
        assert((buf0 + s).take(buf0.len() + s.len() - 1) =~= buf0 + s.drop_last());
        lemma_digits_val_prefix(buf0 + s, buf0.len() + s.len() - 1);
        lemma_digits_run_min(p, s.drop_last());
        let q = with_step(p, StepModel::RangeMin(p.step->RangeMin_0, buf0 + s.drop_last()));
        let c = s.last();
        assert(is_digit(c));
        assert((buf0 + s.drop_last()).push(c) =~= buf0 + s);
        assert(step_char_model(q, c) == Ok::<ParserModel, CompileError>(
            with_step(q, StepModel::RangeMin(p.step->RangeMin_0, buf0 + s)),
        ));
    }
}

/// Open digits extend an open maximum-bound buffer while the value stays
/// representable.
proof fn lemma_digits_run_max(p: ParserModel, s: Seq<char>)
    requires
        p.step is RangeMax,
        all_digits(s),
        buf_ok(p.step->RangeMax_2),
        buf_ok(p.step->RangeMax_2 + s),
    ensures
        run_model(p, s) == Ok::<ParserModel, CompileError>(
            with_step(
                p,
                StepModel::RangeMax(
                    p.step->RangeMax_0,
                    p.step->RangeMax_1,
                    p.step->RangeMax_2 + s,
                ),
            ),
        ),
    decreases s.len(),
{
    let buf0 = p.step->RangeMax_2;
    if s.len() == 0 {
        assert(buf0 + s =~= buf0);
        assert(with_step(
            p,
            StepModel::RangeMax(p.step->RangeMax_0, p.step->RangeMax_1, buf0 + s),
        ) =~= p);
    } else {
        assert((buf0 + s).take(buf0.len() + s.len() - 1) =~= buf0 + s.drop_last());
        lemma_digits_val_prefix(buf0 + s, buf0.len() + s.len() - 1);
        lemma_digits_run_max(p, s.drop_last());
        let q = with_step(
            p,
            StepModel::RangeMax(p.step->RangeMax_0, p.step->RangeMax_1, buf0 + s.drop_last()),
        );
        let c = s.last();
        assert(is_digit(c));
        assert((buf0 + s.drop_last()).push(c) =~= buf0 + s);
    }
}

/// Subset markers wrap a finalizable token over and over.
proof fn lemma_subsets_run(p: ParserModel, k: nat)
    requires
        resolvable(p.step),
    ensures
        run_model(p, subsets_text(k)) is Ok,
        ({
            let q = run_model(p, subsets_text(k))->Ok_0;
            q.stack == p.stack && q.items == p.items && resolvable(q.step)
        }),
    decreases k,
{
    if k > 0 {
        lemma_subsets_run(p, (k - 1) as nat);
        assert(subsets_text(k).drop_last() =~= subsets_text((k - 1) as nat));
        assert(subsets_text(k).last() == '#');
    }
}

/// A valid token runs through the machine without error, leaving the
/// context untouched and a fresh partial token open.
proof fn lemma_token_runs(p: ParserModel, t: TokenShape)
    requires
        token_valid(t),
        p.step is Empty,
    ensures
        run_model(p, token_text(t)) is Ok,
        ({
            let q = run_model(p, token_text(t))->Ok_0;
            &&& q.stack == p.stack
            &&& q.items == p.items
            &&& match t {
                TokenShape::Literal(x) => q.step == StepModel::Raw(x),
                _ => q.step is Wrapped,
            }
        }),
    decreases t, 4int,
{
    match t {
        TokenShape::Consonant => {
            lemma_run_one(p, 'c');
        },
        TokenShape::Vowel => {
            lemma_run_one(p, 'v');
        },
        TokenShape::Digit => {
            lemma_run_one(p, 'd');
        },
        TokenShape::Blank => {
            lemma_run_one(p, 's');
        },
        TokenShape::Literal(x) => {
            let a = seq!['%'];
            lemma_run_one(p, '%');
            lemma_run_append(p, a, x);
            let p1 = with_step(p, StepModel::Raw(Seq::empty()));
            assert(run_model(p, a) == Ok::<ParserModel, CompileError>(p1));
            lemma_raw_runs(p1, x);
            assert(Seq::<char>::empty() + x =~= x);
            assert(StepModel::Raw(Seq::<char>::empty() + x) == StepModel::Raw(x));
        },
        TokenShape::Group(m, inner) => {
            let o = if m is Concat {
                '['
            } else {
                '{'
            };
            let cl = if m is Concat {
                ']'
            } else {
                '}'
            };
            let b = pattern_text(*inner);
            assert(token_text(t) == (seq![o] + b) + seq![cl]);
            lemma_run_append(p, seq![o] + b, seq![cl]);
            lemma_run_append(p, seq![o], b);
            lemma_run_one(p, o);
            let p1 = open_group_model(p, m);
            assert(run_model(p, seq![o]) == Ok::<ParserModel, CompileError>(p1));
            lemma_pattern_runs(p1, *inner);
            let p2 = run_model(p1, b)->Ok_0;
            lemma_run_one(p2, cl);
            assert(run_model(p2, seq![cl]) == close_group_model(p2, m));
            assert(p2.stack.len() > 0);
            assert(p2.items.mode == m);
            let p3 = push_item_model(p2)->Ok_0;
            assert(p3.items.items.len() > 0);
            assert(p3.stack.drop_last() =~= p.stack);
            assert(p3.stack.last() == p.items);
        },
    }
}

/// A valid item runs through the machine without error, leaving the
/// context untouched and a finalizable partial token open.
proof fn lemma_item_runs(p: ParserModel, i: ItemShape)
    requires
        item_valid(i),
        p.step is Empty,
    ensures
        run_model(p, item_text(i)) is Ok,
        ({
            let q = run_model(p, item_text(i))->Ok_0;
            q.stack == p.stack && q.items == p.items && resolvable(q.step)
        }),
    decreases i, 5int,
{
    lemma_token_runs(p, i.token);
    let tt = token_text(i.token);
    let rt = range_text(i.range);
    let st = subsets_text(i.subsets);
    assert(item_text(i) == (tt + rt) + st);
    lemma_run_append(p, tt + rt, st);
    lemma_run_append(p, tt, rt);
    let q1 = run_model(p, tt)->Ok_0;
    match i.range {
        RangeShape::Absent => {
            assert(rt =~= Seq::<char>::empty());
            assert(run_model(q1, rt) == Ok::<ParserModel, CompileError>(q1));
        },
        RangeShape::One(n) => {
            assert(rt == seq![':'] + n);
            lemma_run_append(q1, seq![':'], n);
            lemma_run_one(q1, ':');
            let q2 = with_step(q1, StepModel::RangeMin(q1.step->Wrapped_0, Seq::empty()));
            assert(run_model(q1, seq![':']) == Ok::<ParserModel, CompileError>(q2));
            assert(Seq::<char>::empty() + n =~= n);
            lemma_digits_val_nonneg(n);
            lemma_digits_run_min(q2, n);
        },
        RangeShape::Two(a, b) => {
            assert(rt == ((seq![':'] + a) + seq![':']) + b);
            lemma_run_append(q1, (seq![':'] + a) + seq![':'], b);
            lemma_run_append(q1, seq![':'] + a, seq![':']);
            lemma_run_append(q1, seq![':'], a);
            lemma_run_one(q1, ':');
            let node = q1.step->Wrapped_0;
            let q2 = with_step(q1, StepModel::RangeMin(node, Seq::empty()));
            assert(run_model(q1, seq![':']) == Ok::<ParserModel, CompileError>(q2));
            assert(Seq::<char>::empty() + a =~= a);
            lemma_digits_val_nonneg(a);
            lemma_digits_run_min(q2, a);
            let q3 = with_step(q1, StepModel::RangeMin(node, a));
            assert(run_model(q1, seq![':'] + a) == Ok::<ParserModel, CompileError>(q3));
            lemma_run_one(q3, ':');
            let q4 = with_step(q1, StepModel::RangeMax(node, a, Seq::empty()));
            assert(run_model(q3, seq![':']) == Ok::<ParserModel, CompileError>(q4));
            assert(Seq::<char>::empty() + b =~= b);
            lemma_digits_val_nonneg(b);
            lemma_digits_run_max(q4, b);
        },
    }
    let qr = run_model(p, tt + rt)->Ok_0;
    lemma_subsets_run(qr, i.subsets);
}

/// The separated items after the first run through the machine without
/// error, each finalizing its forerunner into the sibling list.
proof fn lemma_rest_runs(p: ParserModel, rest: Seq<ItemShape>)
    requires
        forall|j: int| 0 <= j < rest.len() ==> item_valid(#[trigger] rest[j]),
        resolvable(p.step),
    ensures
        run_model(p, rest_text(rest)) is Ok,
        ({
            let q = run_model(p, rest_text(rest))->Ok_0;
            q.stack == p.stack && q.items.mode == p.items.mode && resolvable(q.step)
        }),
    decreases rest, 7int,
{
    if rest.len() == 0 {
        assert(run_model(p, rest_text(rest)) == Ok::<ParserModel, CompileError>(p));
    } else {
        assert(forall|j: int|
            0 <= j < rest.drop_last().len() ==> item_valid(#[trigger] rest.drop_last()[j]));
        lemma_rest_runs(p, rest.drop_last());
        assert(rest_text(rest) == (rest_text(rest.drop_last()) + seq!['-']) + item_text(
            rest.last(),
        ));
        lemma_run_append(p, rest_text(rest.drop_last()) + seq!['-'], item_text(rest.last()));
        lemma_run_append(p, rest_text(rest.drop_last()), seq!['-']);
        let q1 = run_model(p, rest_text(rest.drop_last()))->Ok_0;
        lemma_run_one(q1, '-');
        let q2 = push_item_model(q1)->Ok_0;
        assert(run_model(q1, seq!['-']) == Ok::<ParserModel, CompileError>(q2));
        assert(item_valid(rest.last()));
        lemma_item_runs(q2, rest.last());
    }
}

/// A valid pattern runs through the machine without error.
proof fn lemma_pattern_runs(p: ParserModel, pat: PatternShape)
    requires
        pattern_valid(pat),
        p.step is Empty,
    ensures
        run_model(p, pattern_text(pat)) is Ok,
        ({
            let q = run_model(p, pattern_text(pat))->Ok_0;
            q.stack == p.stack && q.items.mode == p.items.mode && resolvable(q.step)
        }),
    decreases pat, 6int,
{
    lemma_item_runs(p, pat.first);
    lemma_run_append(p, item_text(pat.first), rest_text(pat.rest));
    let q1 = run_model(p, item_text(pat.first))->Ok_0;
    lemma_rest_runs(q1, pat.rest);
}

/// Round trip on the grammar, first half: every expression the grammar
/// derives compiles without error.
pub proof fn lemma_valid_compiles(pat: PatternShape)
    requires
        pattern_valid(pat),
    ensures
        spec_compile(pattern_text(pat)) is Ok,
{
    lemma_pattern_runs(init_model(), pat);
    let q = run_model(init_model(), pattern_text(pat))->Ok_0;
    assert(q.stack.len() == 0);
    let p2 = push_item_model(q)->Ok_0;
    assert(p2.items.items.len() > 0);
}

/// Round trip on the grammar, for any spelling of a valid expression.
pub proof fn lemma_valid_expression_compiles(s: Seq<char>)
    requires
        valid_expression(s),
    ensures
        spec_compile(s) is Ok,
{
    let pat = choose|p: PatternShape| pattern_valid(p) && #[trigger] pattern_text(p) == s;
    lemma_valid_compiles(pat);
}

} // verus!

