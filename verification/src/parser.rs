//! The pattern compiler: a single-pass, character-by-character parser that
//! turns a pattern expression into one pattern tree or a descriptive error.
//!
//! The compiler is an explicit state machine. Its transient state is a
//! current partial token (the `ParserStep`) and a stack of enclosing groups;
//! every character moves the machine one deterministic step. The whole
//! machine is mirrored by spec functions over `ParserModel`, and the
//! executable compiler is proved to compute exactly `spec_compile`.

use vstd::prelude::*;
use vstd::pervasive::unreached;

use crate::charset::CharsetPattern;
use crate::node::{Node, NodeModel, nodes_model, wf, lemma_nodes_model};

verus! {

/// The kinds of compilation failure. Compilation reports the first failure
/// and stops; generation itself cannot fail.
#[derive(Clone, Copy, Debug, PartialEq, Eq, Structural)]
pub enum CompileError {
    /// A character with no legal transition in the current state: a digit
    /// or range separator with no open range bound, a token started while
    /// another is still open, or a range value too large to represent.
    MalformedToken(char),
    /// A closing bracket with no or a differently-flavoured open group, or
    /// end of input with a group still open.
    UnbalancedGroup,
    /// An empty construct: an empty sibling list, an empty literal run, a
    /// range bound with no digits, or a separator with no pending item.
    EmptyConstruct,
    /// An explicit minimum bound exceeding the explicit maximum bound.
    InvalidRange,
    /// A token key outside the recognized set.
    UnknownClassKey(char),
}

impl CompileError {
    /// A short human-readable description of the error kind; the offending
    /// character, where there is one, sits in the variant itself.
    pub fn message(&self) -> (r: String)
        ensures
            r@ == match *self {
                CompileError::MalformedToken(_) => "unexpected token"@,
                CompileError::UnbalancedGroup => "unbalanced group"@,
                CompileError::EmptyConstruct => "empty construct"@,
                CompileError::InvalidRange => "invalid range"@,
                CompileError::UnknownClassKey(_) => "unknown class key"@,
            },
    {
        match self {
            CompileError::MalformedToken(_) => String::from_str("unexpected token"),
            CompileError::UnbalancedGroup => String::from_str("unbalanced group"),
            CompileError::EmptyConstruct => String::from_str("empty construct"),
            CompileError::InvalidRange => String::from_str("invalid range"),
            CompileError::UnknownClassKey(_) => String::from_str("unknown class key"),
        }
    }
}

/// Whether a character is a decimal digit.
pub open spec fn is_digit(c: char) -> bool {
    '0' as int <= c as int <= '9' as int
}

/// Whether a range-bound buffer holds digits only.
pub open spec fn all_digits(s: Seq<char>) -> bool {
    forall|i: int| 0 <= i < s.len() ==> is_digit(#[trigger] s[i])
}

/// The base-10 value of a digit buffer, most significant digit first.
pub open spec fn digits_val(s: Seq<char>) -> int
    decreases s.len(),
{
    if s.len() == 0 {
        0
    } else {
        digits_val(s.drop_last()) * 10 + (s.last() as int - '0' as int)
    }
}

/// A digit buffer the machine accepts: digits only, value representable.
pub open spec fn buf_ok(s: Seq<char>) -> bool {
    all_digits(s) && 0 <= digits_val(s) <= u32::MAX as int
}

/// The value of a digit buffer never drops when the buffer grows.
pub proof fn lemma_digits_val_nonneg(s: Seq<char>)
    requires
        all_digits(s),
    ensures
        digits_val(s) >= 0,
    decreases s.len(),
{
    if s.len() > 0 {
        assert(all_digits(s.drop_last()));
        lemma_digits_val_nonneg(s.drop_last());
    }
}

/// A prefix of a digit buffer never has a larger value than the buffer.
pub proof fn lemma_digits_val_prefix(s: Seq<char>, i: int)
    requires
        all_digits(s),
        0 <= i <= s.len(),
    ensures
        0 <= digits_val(s.take(i)) <= digits_val(s),
    decreases s.len(),
{
    assert(forall|j: int| 0 <= j < s.take(i).len() ==> is_digit(#[trigger] s.take(i)[j]));
    lemma_digits_val_nonneg(s.take(i));
    if i < s.len() {
        assert(all_digits(s.drop_last()));
        assert(s.drop_last().take(i) =~= s.take(i));
        lemma_digits_val_prefix(s.drop_last(), i);
        lemma_digits_val_nonneg(s.drop_last());
    } else {
        assert(s.take(i) =~= s);
    }
}

/// Whether a character is a decimal digit.
fn is_digit_char(c: char) -> (b: bool)
    ensures
        b == is_digit(c),
{
    let u = c as u32;
    48 <= u && u <= 57
}

/// The base-10 value of a digit buffer: `None` exactly when the buffer is
/// empty, else its value, digits interpreted most significant first.
pub fn vec_char_to_number(n: &Vec<char>) -> (r: Option<u32>)
    requires
        buf_ok(n@),
    ensures
        match r {
            Option::None => n@.len() == 0,
            Option::Some(v) => n@.len() > 0 && v as int == digits_val(n@),
        },
{
    if n.len() == 0 {
        return Option::None;
    }
    let mut acc: u32 = 0;
    for i in 0..n.len()
        invariant
            buf_ok(n@),
            acc as int == digits_val(n@.take(i as int)),
        decreases n.len() - i,
    {
        proof {
            lemma_digits_val_prefix(n@, i + 1);
            assert(n@.take(i + 1).drop_last() =~= n@.take(i as int));
            assert(n@.take(i + 1).last() == n@[i as int]);
        }
        let d = (n[i] as u32) - 48;
        acc = acc * 10 + d;
    }
    proof {
        assert(n@.take(n@.len() as int) =~= n@);
    }
    Option::Some(acc)
}

/// The flavour of an open group: `[` concatenates its items in order, `{`
/// picks one of them at random.
#[derive(Clone, Copy, Debug, PartialEq, Eq, Structural)]
pub enum GroupMode {
    Concat,
    Alternate,
}

/// The current partial token of the machine.
pub enum ParserStep {
    /// Nothing is open.
    Empty,
    /// A finished node, awaiting a possible range or subset suffix.
    Wrapped(Node),
    /// A node whose minimum-bound digit buffer is open.
    RangeMin(Node, Vec<char>),
    /// A node whose maximum-bound digit buffer is open.
    RangeMax(Node, Vec<char>, Vec<char>),
    /// An open literal run, accumulating text.
    Raw(Vec<char>),
}

/// One enclosing group: the completed sibling nodes and the group flavour.
pub struct ParserGroup {
    pub items: Vec<Node>,
    pub mode: GroupMode,
}

/// The compiler's transient state: the innermost sibling list, the stack of
/// enclosing groups, and the current partial token.
pub struct Parser {
    pub stack: Vec<ParserGroup>,
    pub items: ParserGroup,
    pub step: ParserStep,
}

/// The mathematical shape of a partial token.
#[verifier::ext_equal]
pub enum StepModel {
    Empty,
    Wrapped(NodeModel),
    RangeMin(NodeModel, Seq<char>),
    RangeMax(NodeModel, Seq<char>, Seq<char>),
    Raw(Seq<char>),
}

/// The mathematical shape of one group.
#[verifier::ext_equal]
pub struct GroupModel {
    pub items: Seq<NodeModel>,
    pub mode: GroupMode,
}

/// The mathematical shape of the whole machine state.
#[verifier::ext_equal]
pub struct ParserModel {
    pub stack: Seq<GroupModel>,
    pub items: GroupModel,
    pub step: StepModel,
}

impl View for ParserStep {
    type V = StepModel;

    open spec fn view(&self) -> StepModel {
        match *self {
            ParserStep::Empty => StepModel::Empty,
            ParserStep::Wrapped(n) => StepModel::Wrapped(n@),
            ParserStep::RangeMin(n, buf) => StepModel::RangeMin(n@, buf@),
            ParserStep::RangeMax(n, bmin, bmax) => StepModel::RangeMax(n@, bmin@, bmax@),
            ParserStep::Raw(text) => StepModel::Raw(text@),
        }
    }
}

impl View for ParserGroup {
    type V = GroupModel;

    open spec fn view(&self) -> GroupModel {
        GroupModel { items: nodes_model(self.items@), mode: self.mode }
    }
}

/// The models of a stack of groups, in order.
pub open spec fn groups_model(s: Seq<ParserGroup>) -> Seq<GroupModel>
    decreases s,
{
    if s.len() == 0 {
        Seq::empty()
    } else {
        groups_model(s.drop_last()).push(s.last()@)
    }
}

/// Element facts about `groups_model`: it maps the stack pointwise.
proof fn lemma_groups_model(s: Seq<ParserGroup>)
    ensures
        groups_model(s).len() == s.len(),
        forall|i: int| 0 <= i < s.len() ==> #[trigger] groups_model(s)[i] == s[i]@,
    decreases s,
{
    if s.len() > 0 {
        lemma_groups_model(s.drop_last());
    }
}

impl View for Parser {
    type V = ParserModel;

    open spec fn view(&self) -> ParserModel {
        ParserModel { stack: groups_model(self.stack@), items: self.items@, step: self.step@ }
    }
}

/// The machine's starting state: no enclosing group, an empty top-level
/// sibling list in concatenation mode, no partial token.
pub open spec fn init_model() -> ParserModel {
    ParserModel {
        stack: Seq::empty(),
        items: GroupModel { items: Seq::empty(), mode: GroupMode::Concat },
        step: StepModel::Empty,
    }
}

/// The state with only the partial token replaced.
pub open spec fn with_step(p: ParserModel, s: StepModel) -> ParserModel {
    ParserModel { step: s, ..p }
}

/// Finalizing a partial token into a node, by the variant-specific rules:
/// a bare node gets the default bounds `1..=1`, closed range buffers are
/// read in base 10 and must be non-empty and ordered, a literal run must
/// be non-empty.
pub open spec fn resolve_model(s: StepModel) -> Result<NodeModel, CompileError> {
    match s {
        StepModel::Empty => Err(CompileError::EmptyConstruct),
        StepModel::Wrapped(n) => Ok(NodeModel::Repeat(Box::new(n), 1, 1)),
        StepModel::RangeMin(n, buf) => if buf.len() == 0 {
            Err(CompileError::EmptyConstruct)
        } else {
            Ok(NodeModel::Repeat(Box::new(n), digits_val(buf) as u32, digits_val(buf) as u32))
        },
        StepModel::RangeMax(n, bmin, bmax) => if bmin.len() == 0 || bmax.len() == 0 {
            Err(CompileError::EmptyConstruct)
        } else if digits_val(bmin) > digits_val(bmax) {
            Err(CompileError::InvalidRange)
        } else {
            Ok(NodeModel::Repeat(Box::new(n), digits_val(bmin) as u32, digits_val(bmax) as u32))
        },
        StepModel::Raw(text) => if text.len() == 0 {
            Err(CompileError::EmptyConstruct)
        } else {
            Ok(NodeModel::Literal(text))
        },
    }
}

/// The node a completed group builds: a sequence or an alternation of its
/// sibling list, which must not be empty.
pub open spec fn group_node_model(g: GroupModel) -> Result<NodeModel, CompileError> {
    if g.items.len() == 0 {
        Err(CompileError::EmptyConstruct)
    } else {
        match g.mode {
            GroupMode::Concat => Ok(NodeModel::Sequence(g.items)),
            GroupMode::Alternate => Ok(NodeModel::Alternation(g.items)),
        }
    }
}

/// Finalizing the partial token into the innermost sibling list.
pub open spec fn push_item_model(p: ParserModel) -> Result<ParserModel, CompileError> {
    match resolve_model(p.step) {
        Ok(n) => Ok(
            ParserModel {
                items: GroupModel { items: p.items.items.push(n), mode: p.items.mode },
                step: StepModel::Empty,
                ..p
            },
        ),
        Err(e) => Err(e),
    }
}

/// Opening a group: the current sibling list is pushed onto the stack and
/// a fresh list of the given flavour is started.
pub open spec fn open_group_model(p: ParserModel, mode: GroupMode) -> ParserModel {
    ParserModel {
        stack: p.stack.push(p.items),
        items: GroupModel { items: Seq::empty(), mode },
        step: StepModel::Empty,
    }
}

/// Closing a group: the bracket must match an open group of the same
/// flavour; the partial token is finalized into the group, the group's node
/// is built, the enclosing context is restored, and the new node becomes a
/// fresh partial token (so that a range or subset suffix may follow it).
pub open spec fn close_group_model(p: ParserModel, mode: GroupMode) -> Result<
    ParserModel,
    CompileError,
> {
    if p.stack.len() == 0 || p.items.mode != mode {
        Err(CompileError::UnbalancedGroup)
    } else {
        match push_item_model(p) {
            Ok(p2) => match group_node_model(p2.items) {
                Ok(n) => Ok(
                    ParserModel {
                        stack: p2.stack.drop_last(),
                        items: p2.stack.last(),
                        step: StepModel::Wrapped(n),
                    },
                ),
                Err(e) => Err(e),
            },
            Err(e) => Err(e),
        }
    }
}

/// One character's deterministic transition of the machine.
pub open spec fn step_char_model(p: ParserModel, c: char) -> Result<ParserModel, CompileError> {
    if c == ']' {
        close_group_model(p, GroupMode::Concat)
    } else if c == '}' {
        close_group_model(p, GroupMode::Alternate)
    } else if c == '-' {
        push_item_model(p)
    } else if c == '#' {
        match resolve_model(p.step) {
            Ok(n) => Ok(with_step(p, StepModel::Wrapped(NodeModel::Subsequence(Box::new(n))))),
            Err(e) => Err(e),
        }
    } else {
        match p.step {
            StepModel::Raw(text) => Ok(with_step(p, StepModel::Raw(text.push(c)))),
            StepModel::Empty => {
                if c == '[' {
                    Ok(open_group_model(p, GroupMode::Concat))
                } else if c == '{' {
                    Ok(open_group_model(p, GroupMode::Alternate))
                } else if c == '%' {
                    Ok(with_step(p, StepModel::Raw(Seq::empty())))
                } else if c == 'c' {
                    Ok(with_step(p, StepModel::Wrapped(NodeModel::Class(CharsetPattern::Consonant))))
                } else if c == 'v' {
                    Ok(with_step(p, StepModel::Wrapped(NodeModel::Class(CharsetPattern::Vowel))))
                } else if c == 'd' {
                    Ok(with_step(p, StepModel::Wrapped(NodeModel::Class(CharsetPattern::Digit))))
                } else if c == 's' {
                    Ok(with_step(p, StepModel::Wrapped(NodeModel::Literal(seq![' ']))))
                } else if is_digit(c) || c == ':' {
                    Err(CompileError::MalformedToken(c))
                } else {
                    Err(CompileError::UnknownClassKey(c))
                }
            },
            StepModel::Wrapped(n) => {
                if c == ':' {
                    Ok(with_step(p, StepModel::RangeMin(n, Seq::empty())))
                } else {
                    Err(CompileError::MalformedToken(c))
                }
            },
            StepModel::RangeMin(n, buf) => {
                if c == ':' {
                    Ok(with_step(p, StepModel::RangeMax(n, buf, Seq::empty())))
                } else if is_digit(c) {
                    if digits_val(buf.push(c)) <= u32::MAX as int {
                        Ok(with_step(p, StepModel::RangeMin(n, buf.push(c))))
                    } else {
                        Err(CompileError::MalformedToken(c))
                    }
                } else {
                    Err(CompileError::MalformedToken(c))
                }
            },
            StepModel::RangeMax(n, bmin, bmax) => {
                if is_digit(c) {
                    if digits_val(bmax.push(c)) <= u32::MAX as int {
                        Ok(with_step(p, StepModel::RangeMax(n, bmin, bmax.push(c))))
                    } else {
                        Err(CompileError::MalformedToken(c))
                    }
                } else {
                    Err(CompileError::MalformedToken(c))
                }
            },
        }
    }
}

/// The machine run over a whole character sequence.
pub open spec fn run_model(p: ParserModel, s: Seq<char>) -> Result<ParserModel, CompileError>
    decreases s.len(),
{
    if s.len() == 0 {
        Ok(p)
    } else {
        match run_model(p, s.drop_last()) {
            Ok(p2) => step_char_model(p2, s.last()),
            Err(e) => Err(e),
        }
    }
}

/// End of input: any remaining partial token is finalized, every group must
/// be closed, and the root is the single top-level item unwrapped, or the
/// concatenation of the top-level sibling list.
pub open spec fn finish_model(p: ParserModel) -> Result<NodeModel, CompileError> {
    if p.stack.len() > 0 {
        Err(CompileError::UnbalancedGroup)
    } else {
        match push_item_model(p) {
            Ok(p2) => if p2.items.items.len() == 1 {
                Ok(p2.items.items[0])
            } else {
                group_node_model(p2.items)
            },
            Err(e) => Err(e),
        }
    }
}

/// What compiling a pattern expression yields: the tree, or the first error
/// the machine meets.
pub open spec fn spec_compile(s: Seq<char>) -> Result<NodeModel, CompileError> {
    match run_model(init_model(), s) {
        Ok(p) => finish_model(p),
        Err(e) => Err(e),
    }
}

/// The machine only ever holds acceptable digit buffers.
spec fn step_inv(s: StepModel) -> bool {
    match s {
        StepModel::RangeMin(_, buf) => buf_ok(buf),
        StepModel::RangeMax(_, bmin, bmax) => buf_ok(bmin) && buf_ok(bmax),
        _ => true,
    }
}

/// Finalizing a partial token into a node.
fn resolve(step: ParserStep) -> (r: Result<Node, CompileError>)
    requires
        step_inv(step@),
    ensures
        match r {
            Ok(n) => resolve_model(step@) == Ok::<NodeModel, CompileError>(n@),
            Err(e) => resolve_model(step@) == Err::<NodeModel, CompileError>(e),
        },
{
    match step {
        ParserStep::Empty => Err(CompileError::EmptyConstruct),
        ParserStep::Wrapped(n) => Ok(Node::Repeat(Box::new(n), 1, 1)),
        ParserStep::RangeMin(n, buf) => match vec_char_to_number(&buf) {
            Option::None => Err(CompileError::EmptyConstruct),
            Option::Some(v) => Ok(Node::Repeat(Box::new(n), v, v)),
        },
        ParserStep::RangeMax(n, bmin, bmax) => {
            let vmin = vec_char_to_number(&bmin);
            let vmax = vec_char_to_number(&bmax);
            match (vmin, vmax) {
                (Option::Some(a), Option::Some(b)) => if a > b {
                    Err(CompileError::InvalidRange)
                } else {
                    Ok(Node::Repeat(Box::new(n), a, b))
                },
                _ => Err(CompileError::EmptyConstruct),
            }
        },
        ParserStep::Raw(text) => if text.len() == 0 {
            Err(CompileError::EmptyConstruct)
        } else {
            Ok(Node::Literal(text))
        },
    }
}

impl Parser {
    /// A fresh machine: nothing open, an empty top-level sibling list.
    pub fn new() -> (p: Parser)
        ensures
            p@ == init_model(),
    {
        let p = Parser {
            stack: Vec::new(),
            items: ParserGroup { items: Vec::new(), mode: GroupMode::Concat },
            step: ParserStep::Empty,
        };
        proof {
            assert(p@ =~= init_model());
        }
        p
    }

    /// Moves the current partial token out, leaving the machine tokenless.
    fn take_step(&mut self) -> (s: ParserStep)
        ensures
            s == old(self).step,
            final(self).stack == old(self).stack,
            final(self).items == old(self).items,
            final(self).step == ParserStep::Empty,
    {
        let mut s = ParserStep::Empty;
        core::mem::swap(&mut self.step, &mut s);
        s
    }

    /// Finalizes the partial token into the innermost sibling list.
    fn must_push_item(&mut self) -> (r: Result<(), CompileError>)
        requires
            step_inv(old(self)@.step),
        ensures
            match r {
                Ok(()) => push_item_model(old(self)@) == Ok::<ParserModel, CompileError>(
                    final(self)@,
                ) && step_inv(final(self)@.step),
                Err(e) => push_item_model(old(self)@) == Err::<ParserModel, CompileError>(e),
            },
    {
        let step = self.take_step();
        match resolve(step) {
            Ok(n) => {
                let ghost items0 = self.items.items@;
                let ghost n0 = n;
                self.items.items.push(n);
                proof {
                    assert(items0.push(n0).drop_last() =~= items0);
                    assert(push_item_model(old(self)@) == Ok::<ParserModel, CompileError>(
                        final(self)@,
                    ));
                }
                Ok(())
            },
            Err(e) => Err(e),
        }
    }

    /// Opens a group of the given flavour.
    fn open_group(&mut self, mode: GroupMode)
        ensures
            final(self)@ == open_group_model(old(self)@, mode),
    {
        let mut g = ParserGroup { items: Vec::new(), mode };
        core::mem::swap(&mut self.items, &mut g);
        let ghost stack0 = self.stack@;
        let ghost g0 = g;
        self.stack.push(g);
        self.step = ParserStep::Empty;
        proof {
            assert(stack0.push(g0).drop_last() =~= stack0);
            assert(final(self)@ =~= open_group_model(old(self)@, mode));
        }
    }

    /// Closes a group of the given flavour, installing its node as a fresh
    /// partial token.
    fn close_group(&mut self, mode: GroupMode) -> (r: Result<(), CompileError>)
        requires
            step_inv(old(self)@.step),
        ensures
            match r {
                Ok(()) => close_group_model(old(self)@, mode) == Ok::<ParserModel, CompileError>(
                    final(self)@,
                ) && step_inv(final(self)@.step),
                Err(e) => close_group_model(old(self)@, mode) == Err::<ParserModel, CompileError>(
                    e,
                ),
            },
    {
        proof {
            lemma_groups_model(self.stack@);
        }
        if self.stack.len() == 0 {
            return Err(CompileError::UnbalancedGroup);
        }
        if !(self.items.mode == mode) {
            return Err(CompileError::UnbalancedGroup);
        }
        match self.must_push_item() {
            Err(e) => Err(e),
            Ok(()) => {
                proof {
                    lemma_groups_model(self.stack@);
                }
                let popped = self.stack.pop();
                match popped {
                    Option::None => unreached(),
                    Option::Some(mut g) => {
                        let ghost parent0 = g;
                        let ghost stack1 = self.stack@;
                        proof {
                            assert(stack1.push(parent0).drop_last() =~= stack1);
                            assert(groups_model(stack1).push(parent0@).drop_last() =~= groups_model(
                                stack1,
                            ));
                        }
                        core::mem::swap(&mut self.items, &mut g);
                        if g.items.len() == 0 {
                            proof {
                                lemma_nodes_model(g.items@);
                            }
                            return Err(CompileError::EmptyConstruct);
                        }
                        proof {
                            lemma_nodes_model(g.items@);
                        }
                        let n = match g.mode {
                            GroupMode::Concat => Node::Sequence(g.items),
                            GroupMode::Alternate => Node::Alternation(g.items),
                        };
                        self.step = ParserStep::Wrapped(n);
                        proof {
                            assert(close_group_model(old(self)@, mode) == Ok::<
                                ParserModel,
                                CompileError,
                            >(final(self)@));
                        }
                        Ok(())
                    },
                }
            },
        }
    }

    /// One character's deterministic transition of the machine.
    fn parse_char(&mut self, c: char) -> (r: Result<(), CompileError>)
        requires
            step_inv(old(self)@.step),
        ensures
            match r {
                Ok(()) => step_char_model(old(self)@, c) == Ok::<ParserModel, CompileError>(
                    final(self)@,
                ) && step_inv(final(self)@.step),
                Err(e) => step_char_model(old(self)@, c) == Err::<ParserModel, CompileError>(e),
            },
    {
        if c == ']' {
            return self.close_group(GroupMode::Concat);
        }
        if c == '}' {
            return self.close_group(GroupMode::Alternate);
        }
        if c == '-' {
            return self.must_push_item();
        }
        if c == '#' {
            let step = self.take_step();
            return match resolve(step) {
                Ok(n) => {
                    self.step = ParserStep::Wrapped(Node::Subsequence(Box::new(n)));
                    Ok(())
                },
                Err(e) => Err(e),
            };
        }
        let step = self.take_step();
        match step {
            ParserStep::Raw(mut text) => {
                text.push(c);
                self.step = ParserStep::Raw(text);
                Ok(())
            },
            ParserStep::Empty => {
                if c == '[' {
                    self.open_group(GroupMode::Concat);
                    Ok(())
                } else if c == '{' {
                    self.open_group(GroupMode::Alternate);
                    Ok(())
                } else if c == '%' {
                    self.step = ParserStep::Raw(Vec::new());
                    Ok(())
                } else if c == 'c' {
                    self.step = ParserStep::Wrapped(Node::Class(CharsetPattern::Consonant));
                    Ok(())
                } else if c == 'v' {
                    self.step = ParserStep::Wrapped(Node::Class(CharsetPattern::Vowel));
                    Ok(())
                } else if c == 'd' {
                    self.step = ParserStep::Wrapped(Node::Class(CharsetPattern::Digit));
                    Ok(())
                } else if c == 's' {
                    let blank: Vec<char> = vec![' '];
                    proof {
                        assert(blank@ =~= seq![' ']);
                    }
                    self.step = ParserStep::Wrapped(Node::Literal(blank));
                    Ok(())
                } else if is_digit_char(c) || c == ':' {
                    Err(CompileError::MalformedToken(c))
                } else {
                    Err(CompileError::UnknownClassKey(c))
                }
            },
            ParserStep::Wrapped(n) => {
                if c == ':' {
                    self.step = ParserStep::RangeMin(n, Vec::new());
                    Ok(())
                } else {
                    Err(CompileError::MalformedToken(c))
                }
            },
            ParserStep::RangeMin(n, mut buf) => {
                if c == ':' {
                    self.step = ParserStep::RangeMax(n, buf, Vec::new());
                    Ok(())
                } else if is_digit_char(c) {
                    if Self::push_digit(&mut buf, c) {
                        self.step = ParserStep::RangeMin(n, buf);
                        Ok(())
                    } else {
                        Err(CompileError::MalformedToken(c))
                    }
                } else {
                    Err(CompileError::MalformedToken(c))
                }
            },
            ParserStep::RangeMax(n, bmin, mut bmax) => {
                if is_digit_char(c) {
                    if Self::push_digit(&mut bmax, c) {
                        self.step = ParserStep::RangeMax(n, bmin, bmax);
                        Ok(())
                    } else {
                        Err(CompileError::MalformedToken(c))
                    }
                } else {
                    Err(CompileError::MalformedToken(c))
                }
            },
        }
    }

    /// Appends a digit to an open range buffer if the value stays
    /// representable; reports whether it did.
    fn push_digit(buf: &mut Vec<char>, c: char) -> (pushed: bool)
        requires
            buf_ok(old(buf)@),
            is_digit(c),
        ensures
            pushed == (digits_val(old(buf)@.push(c)) <= u32::MAX as int),
            pushed ==> final(buf)@ == old(buf)@.push(c) && buf_ok(final(buf)@),
            !pushed ==> final(buf)@ == old(buf)@,
    {
        let v = match vec_char_to_number(buf) {
            Option::Some(v) => v,
            Option::None => 0,
        };
        let d = (c as u32) - 48;
        let t: u64 = (v as u64) * 10 + (d as u64);
        proof {
            assert(old(buf)@.push(c).drop_last() =~= old(buf)@);
            assert(old(buf)@.push(c).last() == c);
            assert(digits_val(old(buf)@.push(c)) == digits_val(old(buf)@) * 10 + (c as int - '0'
                as int));
        }
        if t <= 0xffff_ffff {
            let ghost buf0 = buf@;
            buf.push(c);
            proof {
                assert(all_digits(buf0.push(c)));
            }
            true
        } else {
            false
        }
    }
}

/// Well-formedness of the node inside a partial token.
spec fn step_wf(s: StepModel) -> bool {
    match s {
        StepModel::Wrapped(n) => wf(n),
        StepModel::RangeMin(n, _) => wf(n),
        StepModel::RangeMax(n, _, _) => wf(n),
        _ => true,
    }
}

/// Well-formedness of every node of a group.
spec fn group_wf(g: GroupModel) -> bool {
    forall|i: int| 0 <= i < g.items.len() ==> wf(#[trigger] g.items[i])
}

/// The machine invariant: every node built so far is well-formed, and
/// every open digit buffer is acceptable.
spec fn parser_wf(p: ParserModel) -> bool {
    group_wf(p.items) && step_wf(p.step) && step_inv(p.step) && (forall|i: int|
        0 <= i < p.stack.len() ==> group_wf(#[trigger] p.stack[i]))
}

/// A finalized partial token is a well-formed node.
proof fn lemma_resolve_wf(s: StepModel)
    requires
        step_wf(s),
        step_inv(s),
        resolve_model(s) is Ok,
    ensures
        wf(resolve_model(s)->Ok_0),
{
}

/// Every step of the machine preserves its invariant.
proof fn lemma_step_char_wf(p: ParserModel, c: char)
    requires
        parser_wf(p),
        step_char_model(p, c) is Ok,
    ensures
        parser_wf(step_char_model(p, c)->Ok_0),
{
    let q = step_char_model(p, c)->Ok_0;
    if c == ']' || c == '}' {
        let p2 = push_item_model(p)->Ok_0;
        lemma_resolve_wf(p.step);
        let item = resolve_model(p.step)->Ok_0;
        assert(forall|i: int|
            0 <= i < p2.items.items.len() ==> wf(#[trigger] p2.items.items[i]));
        assert(group_wf(p2.items));
        assert(q.items == p.stack[p.stack.len() - 1]);
        assert(group_wf(q.items));
        assert(forall|i: int|
            0 <= i < q.stack.len() ==> #[trigger] q.stack[i] == p.stack[i]);
        assert(wf(group_node_model(p2.items)->Ok_0));
        assert(step_wf(q.step));
        assert(parser_wf(q));
    } else if c == '-' {
        lemma_resolve_wf(p.step);
        assert(forall|i: int| 0 <= i < q.items.items.len() ==> wf(#[trigger] q.items.items[i]));
        assert(group_wf(q.items));
        assert(parser_wf(q));
    } else if c == '#' {
        lemma_resolve_wf(p.step);
        assert(parser_wf(q));
    } else if p.step is Empty && (c == '[' || c == '{') {
        assert(forall|i: int|
            0 <= i < q.stack.len() - 1 ==> #[trigger] q.stack[i] == p.stack[i]);
        assert(q.stack[q.stack.len() - 1] == p.items);
        assert(forall|i: int| 0 <= i < q.stack.len() ==> group_wf(#[trigger] q.stack[i]));
        assert(parser_wf(q));
    } else {
        match p.step {
            StepModel::Raw(_) => {
                assert(parser_wf(q));
            },
            StepModel::Empty => {
                assert(parser_wf(q));
            },
            StepModel::Wrapped(_) => {
                assert(parser_wf(q));
            },
            StepModel::RangeMin(n, buf) => {
                if c != ':' && is_digit(c) {
                    lemma_digits_val_nonneg(buf);
                    assert(all_digits(buf.push(c)));
                    assert(buf.push(c).drop_last() =~= buf);
                    assert(buf.push(c).last() == c);
                }
                assert(parser_wf(q));
            },
            StepModel::RangeMax(n, bmin, bmax) => {
                if is_digit(c) {
                    lemma_digits_val_nonneg(bmax);
                    assert(all_digits(bmax.push(c)));
                    assert(bmax.push(c).drop_last() =~= bmax);
                    assert(bmax.push(c).last() == c);
                }
                assert(parser_wf(q));
            },
        }
    }
}

/// A whole run of the machine preserves its invariant.
proof fn lemma_run_wf(p0: ParserModel, s: Seq<char>)
    requires
        parser_wf(p0),
        run_model(p0, s) is Ok,
    ensures
        parser_wf(run_model(p0, s)->Ok_0),
    decreases s.len(),
{
    if s.len() > 0 {
        lemma_run_wf(p0, s.drop_last());
        lemma_step_char_wf(run_model(p0, s.drop_last())->Ok_0, s.last());
    }
}

/// The root the machine hands out at end of input is well-formed.
proof fn lemma_finish_wf(p: ParserModel)
    requires
        parser_wf(p),
        finish_model(p) is Ok,
    ensures
        wf(finish_model(p)->Ok_0),
{
    lemma_resolve_wf(p.step);
    let p2 = push_item_model(p)->Ok_0;
    assert(group_wf(p2.items));
}

/// Every tree that compilation yields is well-formed: repetition bounds
/// ordered, groups non-empty, inclusion percentages in range.
pub proof fn lemma_spec_compile_wf(s: Seq<char>)
    requires
        spec_compile(s) is Ok,
    ensures
        wf(spec_compile(s)->Ok_0),
{
    assert(parser_wf(init_model()));
    lemma_run_wf(init_model(), s);
    lemma_finish_wf(run_model(init_model(), s)->Ok_0);
}

/// A failing step fails the whole run, with the same error.
proof fn lemma_run_err(p0: ParserModel, s: Seq<char>, i: int, e: CompileError)
    requires
        0 <= i < s.len(),
        run_model(p0, s.take(i)) is Ok,
        step_char_model(run_model(p0, s.take(i))->Ok_0, s[i]) == Err::<ParserModel, CompileError>(
            e,
        ),
    ensures
        run_model(p0, s) == Err::<ParserModel, CompileError>(e),
    decreases s.len(),
{
    if s.len() == i + 1 {
        assert(s.drop_last() =~= s.take(i));
        assert(s.last() == s[i]);
    } else {
        assert(s.drop_last().take(i) =~= s.take(i));
        assert(s.drop_last()[i] == s[i]);
        lemma_run_err(p0, s.drop_last(), i, e);
    }
}

impl Parser {
    /// Compiles a whole pattern expression against a fresh machine: one
    /// character at a time, then end-of-input finalization. The result is
    /// exactly what the machine model says of the expression, and a
    /// compiled tree is always well-formed.
    #[verifier::loop_isolation(false)]
    pub fn parse_pattern(&mut self, chars: &Vec<char>) -> (r: Result<Node, CompileError>)
        requires
            old(self)@ == init_model(),
        ensures
            match r {
                Ok(n) => spec_compile(chars@) == Ok::<NodeModel, CompileError>(n@) && wf(n@),
                Err(e) => spec_compile(chars@) == Err::<NodeModel, CompileError>(e),
            },
    {
        for i in 0..chars.len()
            invariant
                run_model(init_model(), chars@.take(i as int)) == Ok::<ParserModel, CompileError>(
                    self@,
                ),
                step_inv(self@.step),
        {
            match self.parse_char(chars[i]) {
                Ok(()) => {
                    proof {
                        assert(chars@.take(i + 1).drop_last() =~= chars@.take(i as int));
                        assert(chars@.take(i + 1).last() == chars@[i as int]);
                    }
                },
                Err(e) => {
                    proof {
                        lemma_run_err(init_model(), chars@, i as int, e);
                    }
                    return Err(e);
                },
            }
        }
        proof {
            assert(chars@.take(chars@.len() as int) =~= chars@);
            lemma_groups_model(self.stack@);
        }
        if self.stack.len() > 0 {
            return Err(CompileError::UnbalancedGroup);
        }
        match self.must_push_item() {
            Err(e) => return Err(e),
            Ok(()) => {},
        }
        proof {
            lemma_nodes_model(self.items.items@);
        }
        if self.items.items.len() == 1 {
            match self.items.items.pop() {
                Option::Some(n) => {
                    proof {
                        lemma_spec_compile_wf(chars@);
                    }
                    Ok(n)
                },
                Option::None => unreached(),
            }
        } else {
            let mode = self.items.mode;
            let mut v: Vec<Node> = Vec::new();
            core::mem::swap(&mut self.items.items, &mut v);
            let n = match mode {
                GroupMode::Concat => Node::Sequence(v),
                GroupMode::Alternate => Node::Alternation(v),
            };
            proof {
                lemma_spec_compile_wf(chars@);
            }
            Ok(n)
        }
    }
}

/// Compiles a pattern expression into one pattern tree, or reports the
/// first error the single left-to-right pass meets. A compiled tree is
/// well-formed, so generation over it cannot fail.
pub fn compile(chars: &Vec<char>) -> (r: Result<Node, CompileError>)
    ensures
        match r {
            Ok(n) => spec_compile(chars@) == Ok::<NodeModel, CompileError>(n@) && wf(n@),
            Err(e) => spec_compile(chars@) == Err::<NodeModel, CompileError>(e),
        },
{
    let mut p = Parser::new();
    p.parse_pattern(chars)
}

} // verus!
